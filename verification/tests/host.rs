use pob_optimizer::config::{is_real_number, lua_path, render_paths, Config};
use pob_optimizer::double::Double;
use pob_optimizer::fx::Scored;
use pob_optimizer::heap::MinHeap;
use pob_optimizer::host::{
    check_batch, check_save, count_ids, cut_candidates, fitting, no_pool, prepare,
};
use pob_optimizer::pool::{
    batch_jobs, boot_failure, call_for, collect_boot, interleave, named_job, reassemble, reject,
    scalar_reply, score_column, triple_reply, Boot, Call, Done, Stage,
};
use pob_optimizer::signature::build_signature;
use pob_optimizer::text::{
    chars_of, decimal_text, parse_count, parse_signed, replace, split, text_of, trim,
};

fn d(x: f64) -> Double {
    Double::from_bits(x.to_bits())
}

fn triple(score: f64, dps: f64, ehp: f64) -> Scored {
    Scored { score: d(score), dps: d(dps), ehp: d(ehp) }
}

const FULL: &str = "# paths\nlua_dll=C:\\rt\\lua51.dll\n src_dir = /src=x \r\nruntime_dir=C:\\rt\n\
    runtime_lua=C:\\rt\\lua\nbuild_xml=b.xml\n\nbootstrap=boot.lua\nscore_fn=score\n";

#[test]
fn a_configuration_is_read() {
    let c = Config::parse(FULL, 6).unwrap();
    assert_eq!(c.lua_dll, "C:\\rt\\lua51.dll");
    assert_eq!(c.src_dir, "/src=x");
    assert_eq!(c.runtime_dir, "C:\\rt");
    assert_eq!(c.runtime_lua, "C:\\rt\\lua");
    assert_eq!(c.build_xml, "b.xml");
    assert_eq!(c.bootstrap_path, "boot.lua");
    assert_eq!(c.score_fn, "score");
    assert_eq!(c.candidate_fn, "");
    assert_eq!(c.workers, 6);
    assert_eq!(c.w_dps, "1");
    assert_eq!(c.w_ehp, "1");
    assert_eq!(c.penalty_k, "5");
    let more = format!("{FULL}candidate_fn=list\nworkers=3\nw_dps=2.5\nw_ehp=1e-3\npenalty_k=25");
    let c = Config::parse(&more, 6).unwrap();
    assert_eq!(c.candidate_fn, "list");
    assert_eq!(c.workers, 3);
    assert_eq!(c.w_dps, "2.5");
    assert_eq!(c.w_ehp, "1e-3");
    assert_eq!(c.penalty_k, "25");
    let none = format!("{FULL}workers=0");
    assert_eq!(Config::parse(&none, 6).unwrap().workers, 6);
}

fn fault(text: &str) -> String {
    match Config::parse(text, 1) {
        Ok(_) => panic!("no fault"),
        Err(e) => e,
    }
}

#[test]
fn a_configuration_tells_what_is_wrong() {
    assert_eq!(fault("\n\n  oops  \n"), "config line 3: no '=' in 'oops'");
    assert_eq!(fault("nope=1"), "config: unknown key 'nope'");
    assert_eq!(fault("workers=-1"), "config: workers='-1' is not a number");
    assert_eq!(fault("w_dps=x"), "config: w_dps='x' is not a number");
    assert_eq!(fault("w_ehp="), "config: w_ehp='' is not a number");
    assert_eq!(fault("penalty_k=strict"), "config: penalty_k='strict' is not a number");
    let keys = ["lua_dll", "src_dir", "runtime_dir", "runtime_lua", "build_xml", "bootstrap", "score_fn"];
    let mut text = String::new();
    for key in keys {
        assert_eq!(fault(&text), format!("config: missing required key '{key}'"));
        text.push_str(&format!("{key}=v\n"));
    }
    assert!(Config::parse(&text, 1).is_ok());
}

#[test]
fn numbers_with_a_point_are_told_as_the_machine_tells_them() {
    for s in [
        "1", "+1", "-1.5", ".5", "5.", "1e3", "1E+3", "1.5e-3", "inf", "-Infinity", "NaN", "", ".",
        "+", "e3", "1e", "1e+", "1.2.3", "0x1", "1 ", "--1", "infinit", "1e3.5", "1_000", "\u{661}",
        "5.e1", ".e1", "nan1", "+.5", "1e5e5",
    ] {
        assert_eq!(is_real_number(&chars_of(s)), s.parse::<f64>().is_ok(), "{s:?}");
    }
}

#[test]
fn a_boot_script_is_filled_in() {
    let c = Config::parse(FULL, 1).unwrap();
    let t = "a @@RUNTIME_LUA@@ b @@RUNTIME@@ c @@BUILD_XML@@ @@W_DPS@@/@@W_EHP@@/@@PENALTY_K@@ @@RUNTIME@@ @@";
    assert_eq!(
        c.render_bootstrap(t, "3", "1.5", "25"),
        "a C:/rt/lua b C:/rt c b.xml 3/1.5/25 C:/rt @@"
    );
    assert_eq!(render_paths("@@RUNTIME@@@@BUILD_XML@@", "x", "a\\b", "c"), "a/bc");
    assert_eq!(lua_path("C:\\a\\b/c"), "C:/a/b/c");
}

#[test]
fn text_is_taken_apart() {
    let t = |s: &str| text_of(&trim(&chars_of(s)));
    assert_eq!(t(" \t\u{3000}a b\u{a0}\r\n"), "a b");
    assert_eq!(t("  "), "");
    for s in ["\u{200b}x", "\u{85}x\u{1680}", "\u{2028}\u{205f}x\u{2000}", "\u{180e}x", "\u{feff}x"] {
        assert_eq!(t(s), s.trim());
    }
    let parts: Vec<String> =
        split(&chars_of("a,,b\nc"), ',', '\n').iter().map(text_of).collect();
    assert_eq!(parts, vec!["a", "", "b", "c"]);
    assert_eq!(text_of(&replace(&chars_of("aaa"), "aa", &chars_of("b"))), "ba");
    assert_eq!(text_of(&replace(&chars_of("abc"), "x", &chars_of("y"))), "abc");
    for n in [0usize, 9, 10, 1234567890, usize::MAX] {
        assert_eq!(text_of(&decimal_text(n)), n.to_string());
    }
}

#[test]
fn numbers_are_read_as_the_machine_reads_them() {
    for s in [
        "0", "-0", "+7", "-", "+", "", "12a", "9223372036854775807", "9223372036854775808",
        "-9223372036854775808", "-9223372036854775809", "00012", "+-1", " 1",
        "99999999999999999999999999", "18446744073709551615", "18446744073709551616", "\u{662}",
    ] {
        assert_eq!(parse_signed(&chars_of(s)), s.parse::<i64>().ok(), "{s:?}");
        assert_eq!(parse_count(&chars_of(s)), s.parse::<usize>().ok(), "{s:?}");
    }
}

#[test]
fn the_first_fault_of_a_boot_counts() {
    let ok = collect_boot(&vec![
        Boot::Ready(vec![]),
        Boot::Ready(vec![1, 2]),
        Boot::Ready(vec![3]),
    ]);
    assert_eq!(ok, Ok(vec![1, 2]));
    let bad = collect_boot(&vec![
        Boot::Ready(vec![1]),
        Boot::Failed("first".to_string()),
        Boot::Lost,
    ]);
    assert_eq!(bad, Err("first".to_string()));
    let lost = collect_boot(&vec![Boot::Lost, Boot::Failed("later".to_string())]);
    assert_eq!(lost, Err("worker panicked during boot".to_string()));
    assert_eq!(collect_boot(&vec![]), Ok(vec![]));
}

#[test]
fn answers_are_put_in_place() {
    let done = vec![
        Done { index: 2, out: triple(1.0, 2.0, 3.0) },
        Done { index: 0, out: triple(4.0, 5.0, 6.0) },
    ];
    let all = reassemble(3, &done);
    assert_eq!(all[0], triple(4.0, 5.0, 6.0));
    assert_eq!(all[1], reject());
    assert_eq!(all[2], triple(1.0, 2.0, 3.0));
    assert!(all[1].score.is_nan() && all[1].dps.is_nan() && all[1].ehp.is_nan());
    assert_eq!(score_column(&all)[2], d(1.0));
    let flat = interleave(&all);
    assert_eq!(flat.len(), 9);
    assert_eq!(&flat[0..3], &[d(4.0), d(5.0), d(6.0)]);
    assert_eq!(&flat[6..9], &[d(1.0), d(2.0), d(3.0)]);
}

#[test]
fn a_failed_call_rejects_its_candidate() {
    assert_eq!(scalar_reply(Some(d(7.0))), Scored { score: d(7.0), ..reject() });
    assert_eq!(scalar_reply(None), reject());
    assert_eq!(triple_reply(Some(triple(1.0, 2.0, 3.0))), triple(1.0, 2.0, 3.0));
    assert_eq!(triple_reply(None), reject());
}

#[test]
fn a_batch_is_checked_and_cut_up() {
    assert_eq!(check_batch("score_batch", 2, true, true, true), Ok(2));
    assert_eq!(check_batch("score_batch", 0, false, false, false), Ok(0));
    assert_eq!(
        check_batch("score_batch", -1, true, true, true),
        Err("score_batch: n is negative".to_string())
    );
    assert_eq!(
        check_batch("score_batch3", 1, false, true, true),
        Err("score_batch3: lengths or out is NULL".to_string())
    );
    assert_eq!(
        check_batch("score_batch3", 1, true, true, false),
        Err("score_batch3: ids is NULL".to_string())
    );
    assert_eq!(no_pool("run_beam"), "run_beam: pool is NULL");
    assert_eq!(count_ids("score_batch", &[2, 0, 1]), Ok(3));
    assert_eq!(
        count_ids("score_batch", &[2, 0, -1, -2]),
        Err("score_batch: candidate 2 has negative length".to_string())
    );
    assert_eq!(cut_candidates(&[7, 8, 9], &[2, 0, 1]), vec![vec![7, 8], vec![], vec![9]]);
    assert_eq!(check_save(3, true), Ok(3));
    assert_eq!(check_save(0, false), Ok(0));
    assert_eq!(check_save(-1, true), Err("call_save: len is negative".to_string()));
    assert_eq!(check_save(1, false), Err("call_save: packed is NULL".to_string()));
    assert_eq!(fitting(5, 3), 3);
    assert_eq!(fitting(2, 3), 2);
    assert_eq!(fitting(2, -3), 0);
}

#[test]
fn a_search_is_prepared() {
    let flat = vec![5, 3, 2, 5, 2, 1, 7, 7, 1, 1, 5];
    let p = match prepare("beam_width=3", &flat) {
        Ok(p) => p,
        Err(e) => panic!("{}", e),
    };
    assert_eq!(p.params.beam_width, 3);
    assert_eq!(p.graph.start, 5);
    assert_eq!(p.build_sig, build_signature(&flat));
    assert!(!p.uses_cache(true), "without a penalty the growth scores cannot be derived");
    let mut whole = flat.clone();
    whole.extend_from_slice(&[1000, 1000, 1000, 1000, 5000]);
    match prepare("", &whole) {
        Ok(p) => assert!(p.uses_cache(true) && !p.uses_cache(false)),
        Err(e) => panic!("{}", e),
    }
    let told = |params: &str, flat: &[i32]| match prepare(params, flat) {
        Ok(_) => panic!("no fault"),
        Err(e) => e,
    };
    assert_eq!(told("x=1", &[]), "beam params: unknown key 'x'");
    assert_eq!(
        told("", &[1, 2]),
        "run_beam: no graph exported (create the pool with candidate_fn=__pob_graph_export)"
    );
    assert_eq!(told("", &[1, 2, 3]), "pob_opt_run_beam panicked");
    assert_eq!(told("", &[1, 2, 1, 7, 1, 0]), "pob_opt_run_beam panicked");
}

#[test]
fn a_heap_gives_back_the_least() {
    let mut heap = MinHeap::new();
    let mut all: Vec<(u128, u32)> = Vec::new();
    let mut x: u32 = 1;
    for _ in 0..200 {
        x = x.wrapping_mul(1664525).wrapping_add(1013904223);
        let item = ((x >> 28) as u128, x % 50);
        heap.push(item);
        all.push(item);
    }
    all.sort();
    for item in all {
        assert_eq!(heap.pop(), Some(item));
    }
    assert_eq!(heap.pop(), None);
}

#[test]
fn a_batch_becomes_jobs() {
    let jobs = batch_jobs(&[vec![1, 2], vec![], vec![3]], true);
    let plain: Vec<(usize, Vec<i32>)> = jobs.iter().map(|j| (j.index, j.ids.clone())).collect();
    assert_eq!(plain, vec![(0, vec![1, 2]), (1, vec![]), (2, vec![3])]);
    assert!(jobs.iter().all(|j| j.triple && j.call_fn.is_none()));
    assert!(batch_jobs(&[], false).is_empty());
}

#[test]
fn a_worker_calls_what_its_job_asks_for() {
    let triple_job = &batch_jobs(&[vec![1]], true)[0];
    let scalar_job = &batch_jobs(&[vec![1]], false)[0];
    let save_job = named_job("save", &[4, 5]);
    assert!(matches!(call_for(triple_job, "score"), Call::Triple(f) if f == "score"));
    assert!(matches!(call_for(scalar_job, "score"), Call::Scalar(f) if f == "score"));
    assert!(matches!(call_for(&save_job, "score"), Call::Scalar(f) if f == "save"));
    assert_eq!((save_job.index, save_job.ids), (0, vec![4, 5]));
}

#[test]
fn a_failed_boot_says_where_it_failed() {
    for (stage, text) in [
        (Stage::State, "create state: why"),
        (Stage::Script, "boot: why"),
        (Stage::Candidates, "candidate enumeration: why"),
    ] {
        assert_eq!(collect_boot(&vec![boot_failure(stage, "why")]), Err(text.to_string()));
    }
}
