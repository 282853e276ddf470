use mesh_node::fragment::{fragment, Fragment, FragmentAssembler, FRAGMENT_CAPACITY};

fn payload_of_len(n: usize) -> Vec<u8> {
    (0..n).map(|i| (i % 251) as u8).collect()
}

fn duplicate(f: &Fragment) -> Fragment {
    Fragment { index: f.index, total: f.total, data: f.data.clone() }
}

#[test]
fn fragment_counts_and_chunks() {
    assert_eq!(fragment(&Vec::new()).len(), 1);
    assert_eq!(fragment(&payload_of_len(1)).len(), 1);
    assert_eq!(fragment(&payload_of_len(FRAGMENT_CAPACITY)).len(), 1);
    assert_eq!(fragment(&payload_of_len(FRAGMENT_CAPACITY + 1)).len(), 2);
    assert_eq!(fragment(&payload_of_len(3 * FRAGMENT_CAPACITY)).len(), 3);
    let frags = fragment(&payload_of_len(FRAGMENT_CAPACITY + 5));
    assert_eq!(frags[0].index, 0);
    assert_eq!(frags[1].index, 1);
    assert_eq!(frags[0].total, 2);
    assert_eq!(frags[1].total, 2);
    assert_eq!(frags[0].data.len(), FRAGMENT_CAPACITY);
    assert_eq!(frags[1].data.len(), 5);
}

#[test]
fn round_trip_all_lengths() {
    for n in [0usize, 1, 127, 128, 129, 255, 256, 300, 1000] {
        let payload = payload_of_len(n);
        let frags = fragment(&payload);
        let mut reasm = FragmentAssembler::new();
        let mut result = None;
        for f in &frags {
            let r = reasm.accept(f, 7, 42);
            if r.is_some() {
                assert!(result.is_none(), "reconstructed more than once");
                result = r;
            }
        }
        assert_eq!(result.expect("no reconstruction"), payload, "length {}", n);
    }
}

#[test]
fn round_trip_reverse_order() {
    let payload = payload_of_len(500);
    let frags = fragment(&payload);
    let mut reasm = FragmentAssembler::new();
    let mut result = None;
    for f in frags.iter().rev() {
        let r = reasm.accept(f, 9, 3);
        if r.is_some() {
            result = r;
        }
    }
    assert_eq!(result.unwrap(), payload);
}

#[test]
fn interleaved_sessions_reconstruct_independently() {
    let pa = payload_of_len(300);
    let pb = payload_of_len(290);
    let fa = fragment(&pa);
    let fb = fragment(&pb);
    let mut reasm = FragmentAssembler::new();
    let mut got_a = None;
    let mut got_b = None;
    for i in 0..3 {
        let ra = reasm.accept(&fa[i], 1, 10);
        let rb = reasm.accept(&fb[i], 2, 10);
        if ra.is_some() {
            got_a = ra;
        }
        if rb.is_some() {
            got_b = rb;
        }
    }
    assert_eq!(got_a.unwrap(), pa);
    assert_eq!(got_b.unwrap(), pb);
}

#[test]
fn same_session_distinct_origins_are_distinct_buffers() {
    let pa = payload_of_len(200);
    let fa = fragment(&pa);
    let mut reasm = FragmentAssembler::new();
    assert!(reasm.accept(&fa[0], 5, 1).is_none());
    // same session, other origin: its own buffer
    assert!(reasm.accept(&fa[0], 5, 2).is_none());
    assert_eq!(reasm.accept(&fa[1], 5, 1).unwrap(), pa);
    assert_eq!(reasm.accept(&fa[1], 5, 2).unwrap(), pa);
}

#[test]
fn duplicate_fragment_is_idempotent() {
    let payload = payload_of_len(400);
    let frags = fragment(&payload);
    let mut reasm = FragmentAssembler::new();
    assert!(reasm.accept(&frags[0], 4, 8).is_none());
    assert!(reasm.accept(&frags[1], 4, 8).is_none());
    // re-deliver an already-seen index: no corruption, no early completion
    assert!(reasm.accept(&duplicate(&frags[0]), 4, 8).is_none());
    assert!(reasm.accept(&duplicate(&frags[1]), 4, 8).is_none());
    assert!(reasm.accept(&frags[2], 4, 8).is_none());
    assert_eq!(reasm.accept(&frags[3], 4, 8).unwrap(), payload);
}

#[test]
fn redelivery_after_completion_starts_fresh() {
    let payload = payload_of_len(10);
    let frags = fragment(&payload);
    let mut reasm = FragmentAssembler::new();
    assert_eq!(reasm.accept(&frags[0], 6, 2).unwrap(), payload);
    // the buffer was discarded; a re-delivered copy accumulates anew
    assert_eq!(reasm.accept(&duplicate(&frags[0]), 6, 2).unwrap(), payload);
}

#[test]
fn out_of_range_fragment_is_dropped() {
    let mut reasm = FragmentAssembler::new();
    let bogus = Fragment { index: 5, total: 2, data: vec![1, 2, 3] };
    assert!(reasm.accept(&bogus, 11, 1).is_none());
    let zero_total = Fragment { index: 0, total: 0, data: vec![] };
    assert!(reasm.accept(&zero_total, 11, 1).is_none());
    // the assembler still works for honest traffic afterwards
    let payload = payload_of_len(50);
    let frags = fragment(&payload);
    assert_eq!(reasm.accept(&frags[0], 11, 1).unwrap(), payload);
}
