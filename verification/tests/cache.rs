use pob_optimizer::cache::{encode, load_with_sig, save};
use pob_optimizer::double::Double;
use pob_optimizer::fx::{Memo, Scored};
use pob_optimizer::graph::Graph;
use pob_optimizer::mix::splitmix64;
use pob_optimizer::signature::build_signature;
use std::collections::HashMap;

fn d(x: f64) -> Double {
    Double::from_bits(x.to_bits())
}

fn f(x: Double) -> f64 {
    f64::from_bits(x.to_bits())
}

fn triple(score: f64, dps: f64, ehp: f64) -> Scored {
    Scored { score: d(score), dps: d(dps), ehp: d(ehp) }
}

fn graph_with_refs(ref_dps: f64, ref_ehp: f64, w_dps: f64, w_ehp: f64) -> Graph {
    Graph {
        start: 0,
        budget: 0,
        links: HashMap::new(),
        ty: HashMap::new(),
        ref_dps: d(ref_dps),
        ref_ehp: d(ref_ehp),
        w_dps: d(w_dps),
        w_ehp: d(w_ehp),
        penalty_k: d(5.0),
    }
}

#[test]
fn signature_ignores_weight_trailer_but_not_refs() {
    let base = vec![0, 110, 0, 1942_600, 30943_100, 1000, 1000, 5000];
    let weights_changed = vec![0, 110, 0, 1942_600, 30943_100, 2000, 500, 5000];
    let refs_changed = vec![0, 110, 0, 1800_000, 30943_100, 1000, 1000, 5000];
    assert_eq!(
        build_signature(&base),
        build_signature(&weights_changed),
        "changing only weights/penalty must NOT change the signature"
    );
    assert_ne!(
        build_signature(&base),
        build_signature(&refs_changed),
        "changing the build's ref dps MUST change the signature"
    );
}

#[test]
fn signature_is_node_order_independent() {
    let a = [5, 2, 2, 7, 9];
    let b = [7, 1, 1, 5];
    let trailer = [1000_000, 2000_000, 1000, 1000, 5000];

    let mut order_ab = vec![5, 3, 2];
    order_ab.extend_from_slice(&a);
    order_ab.extend_from_slice(&b);
    order_ab.extend_from_slice(&trailer);

    let mut order_ba = vec![5, 3, 2];
    order_ba.extend_from_slice(&b);
    order_ba.extend_from_slice(&a);
    order_ba.extend_from_slice(&trailer);

    assert_eq!(
        build_signature(&order_ab),
        build_signature(&order_ba),
        "node emission order must not change the signature"
    );

    let mut diff = vec![5, 3, 2];
    diff.extend_from_slice(&[5, 2, 1, 7]);
    diff.extend_from_slice(&b);
    diff.extend_from_slice(&trailer);
    assert_ne!(
        build_signature(&order_ab),
        build_signature(&diff),
        "a real topology change MUST change the signature"
    );
}

#[test]
fn signature_does_not_mind_the_order_of_links() {
    let a = vec![5, 3, 1, 5, 2, 2, 7, 9];
    let b = vec![5, 3, 1, 5, 2, 2, 9, 7];
    assert_eq!(build_signature(&a), build_signature(&b));
}

fn mix(x: u64) -> u64 {
    let mut z = x.wrapping_add(0x9E37_79B9_7F4A_7C15);
    z = (z ^ (z >> 30)).wrapping_mul(0xBF58_476D_1CE4_E5B9);
    z = (z ^ (z >> 27)).wrapping_mul(0x94D0_49BB_1331_11EB);
    z ^ (z >> 31)
}

#[test]
fn splitmix_gives_its_known_values() {
    assert_eq!(splitmix64(0), 0xE220_A839_7B1D_CDAF);
    assert_eq!(splitmix64(0x9E37_79B9_7F4A_7C15), 0x6E78_9E6A_A1B9_65F4);
    for x in [1u64, 77, u64::MAX] {
        assert_eq!(splitmix64(x), mix(x));
    }
}

#[test]
fn signature_is_the_combination_of_its_parts() {
    assert_eq!(build_signature(&[]), mix(0));
    assert_eq!(build_signature(&[1, 2]), mix(mix(mix(2) ^ mix(1)) ^ mix(2)));
    let head = |start: i32, budget: i32, n: u64| {
        mix(start as u32 as u64)
            ^ mix((budget as u32 as u64).wrapping_add(0x1234))
            ^ mix(n.wrapping_add(0x5678))
    };
    assert_eq!(build_signature(&[-5, -1, 0]), head(-5, -1, 0));
    let node = mix(mix((9u64 << 8) ^ 2) ^ mix(-3i32 as u32 as u64));
    assert_eq!(build_signature(&[1, 2, 1, 9, 2, 1, -3]), head(1, 2, 1) ^ node);
    let fold = |rest: &[i32]| {
        rest.iter().fold(mix(rest.len() as u64), |h, x| mix(h ^ mix(*x as u32 as u64)))
    };
    assert_eq!(
        build_signature(&[1, 2, 1, 9, 2, 5, -3]),
        head(1, 2, 1) ^ fold(&[9, 2, 5, -3]),
        "a record that breaks off counts number by number"
    );
    assert_eq!(
        build_signature(&[1, 2, 1, 9, 2, 1, -3, 7, 8, 0, 0]),
        head(1, 2, 1) ^ node ^ fold(&[7, 8, 0, 0]),
        "four numbers behind the nodes are no trailer"
    );
    let refs = mix(7u64.wrapping_add(0xA5A5)) ^ mix(8u64.wrapping_add(0x5A5A));
    assert_eq!(
        build_signature(&[1, 2, 1, 9, 2, 1, -3, 7, 8, 0, 0, 0]),
        head(1, 2, 1) ^ node ^ refs
    );
}

#[test]
fn signature_sees_the_start_the_budget_and_every_node() {
    let base = [5, 3, 2, 5, 2, 1, 7, 7, 1, 1, 5, 1000, 2000, 1, 1, 1];
    for at in [0, 1, 3, 4, 7, 8] {
        let mut other = base;
        other[at] += 1;
        assert_ne!(build_signature(&base), build_signature(&other), "number {at}");
    }
}

#[test]
fn signature_does_not_mind_the_length_of_the_trailer() {
    let base = vec![5, 3, 2, 5, 2, 1, 7, 7, 1, 1, 5, 1000, 2000, 1, 1, 1];
    let mut longer = base.clone();
    longer.extend_from_slice(&[9, 9]);
    assert_eq!(build_signature(&base), build_signature(&longer));
    // A record that breaks off in one export and not in the other is another matter.
    let broken = vec![0, 1, 1, 9, 2, 6, 1, 2, 3, 4, 5];
    let mut whole = broken.clone();
    whole.extend_from_slice(&[6, 7, 8, 9, 10, 11]);
    assert_ne!(build_signature(&broken), build_signature(&whole));
}

#[test]
fn without_a_trailer_every_number_counts() {
    assert_ne!(build_signature(&[0, 110, 0, 1]), build_signature(&[0, 110, 0, 2]));
    assert_ne!(build_signature(&[0, 110, 0]), build_signature(&[0, 110, 0, 0]));
    assert_ne!(build_signature(&[7]), build_signature(&[8]));
    let base = [1, 2, 1, 9, 2, 1, -3, 7, 8, 0, 0];
    for at in 0..base.len() {
        let mut other = base;
        other[at] ^= 1;
        assert_ne!(build_signature(&base), build_signature(&other), "number {at}");
    }
}

#[test]
fn roundtrip_recomputes_score_under_current_weights() {
    let mut memo: Memo = Memo::default();
    memo.insert(vec![0, 5, 9], triple(999.0, 1000.0, 2000.0));
    memo.insert(vec![0, 7], triple(f64::NAN, f64::NAN, f64::NAN));

    let sig = 0xABCD_1234;
    let (bytes, n) = save(sig, &memo);
    assert_eq!(n, 1, "only the finite entry is persisted");

    let g = graph_with_refs(1000.0, 1000.0, 2.0, 0.5);
    let loaded = load_with_sig(&bytes, sig, &g);
    assert_eq!(loaded.len(), 1);
    let e = loaded[&vec![0, 5, 9]];
    assert_eq!(f(e.dps), 1000.0);
    assert_eq!(f(e.ehp), 2000.0);
    assert!(
        (f(e.score) - 300.0).abs() < 1e-9,
        "col 0 recomputed under load-time weights, got {}",
        f(e.score)
    );

    assert!(load_with_sig(&bytes, sig + 1, &g).is_empty());
}

#[test]
fn the_bytes_are_laid_out_as_documented() {
    let (bytes, n) = encode(0x0102, &vec![(vec![3, -1], triple(0.0, 1.0, 2.0))]);
    assert_eq!(n, 1);
    let mut due: Vec<u8> = b"POBC".to_vec();
    due.extend_from_slice(&1u32.to_le_bytes());
    due.extend_from_slice(&0x0102u64.to_le_bytes());
    due.extend_from_slice(&1u64.to_le_bytes());
    due.extend_from_slice(&2u32.to_le_bytes());
    due.extend_from_slice(&3i32.to_le_bytes());
    due.extend_from_slice(&(-1i32).to_le_bytes());
    due.extend_from_slice(&1.0f64.to_bits().to_le_bytes());
    due.extend_from_slice(&2.0f64.to_bits().to_le_bytes());
    assert_eq!(bytes, due);
}

#[test]
fn damaged_bytes_do_no_harm() {
    let g = graph_with_refs(1.0, 1.0, 1.0, 1.0);
    let all = vec![
        (vec![1, 2], triple(0.0, 3.0, 4.0)),
        (vec![i32::MIN, -7], triple(0.0, 5.0, 6.0)),
    ];
    let (bytes, _) = encode(9, &all);
    let whole = load_with_sig(&bytes, 9, &g);
    assert_eq!(whole.len(), 2);
    assert_eq!(whole.get(&vec![i32::MIN, -7]).copied(), Some(triple(1100.0, 5.0, 6.0)));
    for cut in 0..bytes.len() {
        assert!(load_with_sig(&bytes[..cut], 9, &g).is_empty());
    }
    for at in 0..16 {
        let mut other = bytes.clone();
        other[at] ^= 1;
        assert!(load_with_sig(&other, 9, &g).is_empty());
    }
    let mut huge = bytes.clone();
    huge[24..28].copy_from_slice(&1_000_001u32.to_le_bytes());
    assert!(load_with_sig(&huge, 9, &g).is_empty());
    let mut late = bytes.clone();
    late[52..56].copy_from_slice(&1_000_001u32.to_le_bytes());
    assert!(load_with_sig(&late, 9, &g).is_empty());
    let mut endless = bytes.clone();
    endless[16..24].copy_from_slice(&u64::MAX.to_le_bytes());
    assert!(load_with_sig(&endless, 9, &g).is_empty());
    let mut fewer = bytes.clone();
    fewer[16..24].copy_from_slice(&1u64.to_le_bytes());
    assert_eq!(load_with_sig(&fewer, 9, &g).len(), 1);
    assert!(load_with_sig(&[], 9, &g).is_empty());
}
