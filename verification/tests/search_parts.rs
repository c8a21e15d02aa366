use cshogi_rust::book::OpeningBook;
use cshogi_rust::eval_params::EvalParams;
use cshogi_rust::ordering::{
    futility_margin, mate_in, mated_in, order_score, razor_margin, CounterMoveTable, FutilityMoveCounts,
    HistoryTable, ReductionTable, Stack,
};
use cshogi_rust::search::{best_result, root_step, root_take, score_text, take_score, RootProgress, SearchWorker, ThreadResult};
use cshogi_rust::tt::{pos_key, Bound, TT};
use cshogi_rust::usi::{apply_setoption, parse_go_limits, parse_position, try_parse_position, usi_command, UsiCommand};
use cshogi_rust::{Color, Move, Position};
use std::sync::atomic::AtomicBool;
use std::sync::Arc;

fn fnv(bytes: &[u8]) -> u64 {
    let mut h: u64 = 0xcbf29ce484222325;
    for b in bytes {
        h ^= *b as u64;
        h = h.wrapping_mul(0x100000001b3);
    }
    h
}

#[test]
fn margins_and_mate_scores() {
    assert_eq!(mate_in(3), 31997);
    assert_eq!(mated_in(3), -31997);
    assert_eq!(razor_margin(2), 544);
    assert_eq!(futility_margin(6), 540);
}

#[test]
fn key_is_fnv_of_sfen() {
    let pos = Position::start_position();
    assert_eq!(pos_key(&pos), fnv(pos.to_sfen().as_bytes()));
    let other = Position::from_sfen("4k4/9/9/9/9/9/9/9/4K4 b - 1").unwrap();
    assert_ne!(pos_key(&pos), pos_key(&other));
}

#[test]
fn table_gives_back_what_was_stored() {
    let mut tt = TT::new();
    tt.new_search();
    assert!(tt.probe(77).is_none());
    let mv = Move::from_usi("7g7f").unwrap();
    tt.store(77, 5, 123, 45, Some(mv), Bound::Exact);
    let e = tt.probe(77).unwrap();
    assert_eq!(e.score, 123);
    assert_eq!(e.eval, 45);
    assert_eq!(e.depth, 5);
    assert_eq!(e.mv, mv.raw());
    assert_eq!(e.gen, 1);
    // A shallower non-exact result of the same search does not replace it.
    tt.store(77, 3, 9, 9, None, Bound::Lower);
    assert_eq!(tt.probe(77).unwrap().score, 123);
    // A deeper one does, and keeps the move when none is given.
    tt.store(77, 6, 10, 11, None, Bound::Upper);
    let e = tt.probe(77).unwrap();
    assert_eq!(e.score, 10);
    assert_eq!(e.mv, mv.raw());
    // An entry without a bound is not found.
    tt.store(78, 0, 0, 7, None, Bound::NoBound);
    assert!(tt.probe(78).is_none());
    tt.clear();
    assert!(tt.probe(77).is_none());
}

#[test]
fn history_is_clamped() {
    let mut h = HistoryTable::new();
    for _ in 0..40 {
        h.update(3, 10, 1000);
    }
    assert_eq!(h.get(3, 10), 30000);
    for _ in 0..80 {
        h.update(3, 10, -1000);
    }
    assert_eq!(h.get(3, 10), -30000);
    assert_eq!(h.get(15, 10), 0);
    h.clear();
    assert_eq!(h.get(3, 10), 0);
}

#[test]
fn counter_moves_kept() {
    let mut c = CounterMoveTable::new();
    assert_eq!(c.get(1, 2), None);
    let mv = Move::from_usi("2g2f").unwrap();
    c.set(1, 2, mv);
    assert_eq!(c.get(1, 2), Some(mv));
    c.set(20, 2, mv);
    assert_eq!(c.get(20, 2), None);
}

#[test]
fn ordering_scores() {
    let pos = Position::from_sfen("4k4/9/9/9/4p4/4R4/9/9/4K4 b P 1").unwrap();
    let history = HistoryTable::new();
    let capture = pos
        .generate_legal_moves()
        .into_iter()
        .find(|m| m.to_usi() == "5f5e")
        .unwrap();
    assert_eq!(order_score(&pos, capture, None, [0, 0], None, &history), 2_000_000 + 90 * 16 - 990);
    assert_eq!(order_score(&pos, capture, Some(capture), [0, 0], None, &history), 3_000_000);
    let drop = Move::from_usi("P*3c").unwrap();
    assert_eq!(order_score(&pos, drop, None, [0, 0], None, &history), 290);
    let quiet = Move::from_usi("5f6f").unwrap();
    assert_eq!(order_score(&pos, quiet, None, [quiet.raw(), 0], None, &history), 900_000);
    assert_eq!(order_score(&pos, quiet, None, [0, 0], Some(quiet), &history), 700_000);
    assert_eq!(order_score(&pos, quiet, None, [0, 0], None, &history), 0);
}

#[test]
fn pruning_tables_lookup() {
    let mut t = [[0i32; 16]; 2];
    t[1][15] = 7;
    t[0][3] = 4;
    let f = FutilityMoveCounts::from_table(t);
    assert_eq!(f.get(true, 40), 7);
    assert_eq!(f.get(true, -2), 7);
    assert_eq!(f.get(false, 3), 4);
    let mut v = vec![0i32; 2 * 2 * 64 * 64];
    v[((1 * 2 + 0) * 64 + 5) * 64 + 63] = 3;
    let r = ReductionTable::from_table(v);
    assert_eq!(r.get(false, false, 5, 200), 3);
    assert_eq!(r.get(true, false, 5, 200), 0);
}

#[test]
fn usi_score_text() {
    assert_eq!(score_text(123), "cp 123");
    assert_eq!(score_text(-45), "cp -45");
    assert_eq!(score_text(31999), "mate 1");
    assert_eq!(score_text(31995), "mate 3");
    assert_eq!(score_text(-31998), "mate -1");
}

#[test]
fn thread_result_choice() {
    let mv = Move::from_usi("7g7f").unwrap();
    let r = |d: i32| ThreadResult { best_move: mv, best_score: d, completed_depth: d, nodes: 0 };
    assert_eq!(best_result(&vec![]), None);
    assert_eq!(best_result(&vec![r(3), r(5), r(5), r(4)]), Some(2));
}

#[test]
fn root_progress_steps() {
    let a = Move::from_usi("7g7f").unwrap();
    let b = Move::from_usi("2g2f").unwrap();
    let p = RootProgress { best_move: a, best_score: 10, completed_depth: 1 };
    let (q, report, finish) = root_step(p, b, 20, 2, false);
    assert_eq!((q.best_move, q.best_score, q.completed_depth, report, finish), (b, 20, 2, true, false));
    let (q, report, _) = root_step(p, b, 20, 2, true);
    assert_eq!((q.best_move, q.completed_depth, report), (a, 1, false));
    let (_, _, finish) = root_step(p, b, 31990, 3, false);
    assert!(finish);
}

#[test]
fn go_limits_read() {
    let t: Vec<&str> = "go btime 1000 wtime 2000 byoyomi 300".split_whitespace().collect();
    let g = parse_go_limits(&t, Color::Black);
    assert_eq!((g.time_ms, g.byoyomi, g.max_depth), (1000, 300, 64));
    let g = parse_go_limits(&t, Color::White);
    assert_eq!(g.time_ms, 2000);
    let t: Vec<&str> = "go depth 7 binc 50".split_whitespace().collect();
    let g = parse_go_limits(&t, Color::Black);
    assert_eq!((g.time_ms, g.max_depth, g.inc_ms), (999_999_999, 7, 50));
    let t: Vec<&str> = "go btime x infinite".split_whitespace().collect();
    let g = parse_go_limits(&t, Color::Black);
    assert_eq!((g.time_ms, g.max_depth), (999_999_999, 64));
}

#[test]
fn setoption_read() {
    let mut book = String::from("book/yaneuraoh.db");
    let mut threads = 1usize;
    let t: Vec<&str> = "setoption name Threads value 12".split_whitespace().collect();
    apply_setoption(&t, &mut book, &mut threads);
    assert_eq!(threads, 8);
    let t: Vec<&str> = "setoption name BookFile value my.db".split_whitespace().collect();
    apply_setoption(&t, &mut book, &mut threads);
    assert_eq!(book, "my.db");
    let t: Vec<&str> = "setoption name Threads value x".split_whitespace().collect();
    apply_setoption(&t, &mut book, &mut threads);
    assert_eq!(threads, 8);
}

#[test]
fn position_command_read() {
    let t: Vec<&str> = "position startpos moves 7g7f 3c3d".split_whitespace().collect();
    let pos = parse_position(&t);
    assert_eq!(pos.to_sfen(), "lnsgkgsnl/1r5b1/pppppp1pp/6p2/9/2P6/PP1PPPPPP/1B5R1/LNSGKGSNL b - 3");
    let t: Vec<&str> = "position sfen 4k4/9/9/9/9/9/9/9/4K4 b - 1 moves 5i5h".split_whitespace().collect();
    let pos = parse_position(&t);
    assert_eq!(pos.to_sfen(), "4k4/9/9/9/9/9/9/4K4/9 w - 2");
    let t: Vec<&str> = "position sfen garbage moves".split_whitespace().collect();
    assert_eq!(parse_position(&t).to_sfen(), Position::start_position().to_sfen());
    let t: Vec<&str> = "position startpos moves 6i5h+".split_whitespace().collect();
    assert!(try_parse_position(&t).is_none());
}

#[test]
fn worker_searches_start_position() {
    let stop = Arc::new(AtomicBool::new(false));
    let lmr = ReductionTable::from_table(vec![0i32; 2 * 2 * 64 * 64]);
    let fmc = FutilityMoveCounts::from_table([[100i32; 16]; 2]);
    let mut worker = SearchWorker::new(TT::new(), stop, lmr, fmc, EvalParams::default());
    let pos = Position::start_position();
    let moves = pos.generate_legal_moves();
    let mut stack = vec![Stack::default(); 64];
    let (best, score) = worker.search_root(&pos, &moves, &mut stack, 1, moves[0]);
    assert!(moves.contains(&best));
    assert!(score > -32001);
    assert!(worker.nodes > 0);
}

#[test]
fn book_lines_and_probe() {
    let mut book = OpeningBook::new();
    let mut key = String::new();
    book.read_line(&mut key, "  # comment");
    book.read_line(&mut key, "7g7f none 10 32 5");
    assert_eq!(book.entries.len(), 0);
    book.read_line(&mut key, "sfen lnsgkgsnl/1r5b1/ppppppppp/9/9/9/PPPPPPPPP/1B5R1/LNSGKGSNL b - 1");
    assert_eq!(key, "lnsgkgsnl/1r5b1/ppppppppp/9/9/9/PPPPPPPPP/1B5R1/LNSGKGSNL b -");
    book.read_line(&mut key, "7g7f none 10 32 5");
    book.read_line(&mut key, "2g2f none 30 32 9");
    book.read_line(&mut key, "5g5f none 40 32 9");
    book.read_line(&mut key, "short line");
    assert_eq!(book.entries.len(), 1);
    assert_eq!(book.entries[0].moves.len(), 3);
    let pos = Position::start_position();
    assert_eq!(book.probe(&pos), Some(String::from("5g5f")));
    let other = Position::from_sfen("4k4/9/9/9/9/9/9/9/4K4 b - 1").unwrap();
    assert_eq!(book.probe(&other), None);
    // A later line with the same count and a lower score does not win.
    book.read_line(&mut key, "6g6f none 20 32 9");
    assert_eq!(book.probe(&pos), Some(String::from("5g5f")));
    // Non-numbers read as score 0 and count 1.
    book.read_line(&mut key, "sfen 4k4/9/9/9/9/9/9/9/4K4 b - 1");
    book.read_line(&mut key, "5i5h none x 0 y");
    assert_eq!(book.entries[1].moves[0].score, 0);
    assert_eq!(book.entries[1].moves[0].count, 1);
}

#[test]
fn book_move_is_the_legal_best_move() {
    let mut book = OpeningBook::new();
    let mut key = String::new();
    book.read_line(&mut key, "sfen lnsgkgsnl/1r5b1/ppppppppp/9/9/9/PPPPPPPPP/1B5R1/LNSGKGSNL b - 1");
    book.read_line(&mut key, "7g7f none 10 32 5");
    book.read_line(&mut key, "2g2f none 30 32 9");
    let pos = Position::start_position();
    let mv = book.book_move(&pos).unwrap();
    assert_eq!(mv.to_usi(), "2g2f");
    assert!(!mv.is_drop());
    // A best move that is not legal gives no book move.
    book.read_line(&mut key, "sfen 4k4/9/9/9/9/9/9/9/4K4 b - 1");
    book.read_line(&mut key, "5a5b none 10 32 9");
    let other = Position::from_sfen("4k4/9/9/9/9/9/9/9/4K4 b - 1").unwrap();
    assert_eq!(book.probe(&other), Some(String::from("5a5b")));
    assert_eq!(book.book_move(&other), None);
    let empty = Position::from_sfen("4k4/9/9/9/9/9/9/9/3K5 b - 1").unwrap();
    assert_eq!(book.book_move(&empty), None);
}

#[test]
fn usi_commands_by_first_word() {
    assert_eq!(usi_command("usi"), UsiCommand::Usi);
    assert_eq!(usi_command("setoption"), UsiCommand::SetOption);
    assert_eq!(usi_command("isready"), UsiCommand::IsReady);
    assert_eq!(usi_command("usinewgame"), UsiCommand::UsiNewGame);
    assert_eq!(usi_command("position"), UsiCommand::Position);
    assert_eq!(usi_command("go"), UsiCommand::Go);
    assert_eq!(usi_command("stop"), UsiCommand::Stop);
    assert_eq!(usi_command("quit"), UsiCommand::Quit);
    assert_eq!(usi_command("gameover"), UsiCommand::Other);
    assert_eq!(usi_command("Go"), UsiCommand::Other);
}

fn quiet_worker() -> SearchWorker {
    let stop = Arc::new(AtomicBool::new(false));
    let lmr = ReductionTable::from_table(vec![0i32; 2 * 2 * 64 * 64]);
    let fmc = FutilityMoveCounts::from_table([[100i32; 16]; 2]);
    let mut params = EvalParams::default();
    params.eval_noise = 0;
    SearchWorker::new(TT::new(), stop, lmr, fmc, params)
}

#[test]
fn search_node_early_answers() {
    let mut worker = quiet_worker();
    let mut stack = vec![Stack::default(); 64];
    let mut pos = Position::start_position();
    // Stopped: the lower end of the window.
    assert_eq!(worker.search_node(&mut pos, &mut stack, 0, 3, -5, 5, true, true), -5);
    // A window that mate-distance pruning closes.
    assert_eq!(worker.search_node(&mut pos, &mut stack, 1, 3, 31999, 32000, true, false), 31999);
    // A mate in one at a PV node.
    let mut mate = Position::from_sfen("7RG/9/8k/9/8P/7P1/9/9/K8 b N 1").unwrap();
    assert_eq!(worker.search_node(&mut mate, &mut stack, 0, 4, -32001, 32001, true, false), 32000);
    assert_eq!(mate.to_sfen(), "7RG/9/8k/9/8P/7P1/9/9/K8 b N 1");
    // Checkmated at a PV node: mated at this ply.
    let mut mated = Position::from_sfen("8l/9/9/9/9/9/9/8g/8K b - 1").unwrap();
    assert!(mated.generate_legal_moves().is_empty());
    assert_eq!(worker.search_node(&mut mated, &mut stack, 2, 1, -32001, 32001, true, false), -31998);
    assert_eq!(worker.search(&mut mated, &mut stack, 2, 1, -32001, 32001, true), -31998);
}

#[test]
fn qsearch_node_early_answers() {
    let mut worker = quiet_worker();
    let mut stack = vec![Stack::default(); 64];
    let mut pos = Position::start_position();
    assert_eq!(worker.qsearch_node(&mut pos, &mut stack, 2, -7, 7, true), -7);
    // From ply 16 on, the evaluation for the side to move.
    let eval = pos.evaluate_improved(&worker.params, &mut 0u64);
    assert_eq!(worker.qsearch_node(&mut pos, &mut stack, 16, -100, 100, false), eval);
    // In check without a legal move: mated at this ply.
    let mut mated = Position::from_sfen("4k4/4G4/4P4/9/9/9/9/9/4K4 w - 1").unwrap();
    assert!(mated.generate_legal_moves().is_empty());
    assert_eq!(worker.qsearch_node(&mut mated, &mut stack, 3, -100, 100, false), -31997);
}

#[test]
fn plain_time_allocation_values() {
    assert_eq!(cshogi_rust::usi::plain_time_allocation(60_000), 1200);
    assert_eq!(cshogi_rust::usi::plain_time_allocation(10_000), 500);
    assert_eq!(cshogi_rust::usi::plain_time_allocation(0), 500);
}

#[test]
fn child_scores_fold_into_the_node() {
    assert_eq!(take_score(-32001, -100, 100, 5), (5, 5, true, false));
    assert_eq!(take_score(5, 5, 100, 3), (5, 5, false, false));
    assert_eq!(take_score(5, 5, 100, 150), (150, 150, true, true));
    assert_eq!(take_score(-32001, 20, 100, 10), (10, 20, true, false));
    let a = Move::from_usi("7g7f").unwrap();
    let b = Move::from_usi("2g2f").unwrap();
    assert_eq!(root_take(a, 10, 10, b, 30, false), (b, 30, 30, false));
    assert_eq!(root_take(a, 10, 10, b, 5, false), (a, 10, 10, false));
    assert_eq!(root_take(a, 10, 10, b, 30, true), (a, 10, 10, true));
}

#[test]
fn quiescence_takes_a_hanging_rook() {
    let mut worker = quiet_worker();
    let mut stack = vec![Stack::default(); 64];
    let mut pos = Position::from_sfen("4k4/9/9/9/4r4/9/9/4R4/4K4 b - 1").unwrap();
    let stand_pat = pos.evaluate_improved(&worker.params, &mut 0u64);
    let r = worker.qsearch(&mut pos, &mut stack, 0, -32001, 32001);
    assert!(r > stand_pat);
    assert_eq!(pos.to_sfen(), "4k4/9/9/9/4r4/9/9/4R4/4K4 b - 1");
}

#[test]
fn root_search_picks_the_capture() {
    let mut worker = quiet_worker();
    let mut stack = vec![Stack::default(); 64];
    let pos = Position::from_sfen("4k4/9/9/9/4r4/9/9/4R4/4K4 b - 1").unwrap();
    let moves = pos.generate_legal_moves();
    let (best, score) = worker.search_root(&pos, &moves, &mut stack, 1, moves[0]);
    assert_eq!(best.to_usi(), "5h5e");
    assert!(score > 0);
}

#[test]
fn futility_cuts_a_quiet_node() {
    let mut worker = quiet_worker();
    let mut stack = vec![Stack::default(); 64];
    let mut pos = Position::start_position();
    let eval = pos.evaluate_improved(&worker.params, &mut 0u64);
    // A non-PV node out of check whose evaluation less 90 reaches beta.
    let r = worker.search_node(&mut pos, &mut stack, 2, 1, -1000, -999, false, false);
    assert_eq!(r, eval - 90);
}
