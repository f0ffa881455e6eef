use handoff_counter::Handoff;
use std::collections::HashMap;

fn setup() -> (Handoff<char>, Handoff<char>) {
    let mut ni: Handoff<char> = Handoff::new('i', 1, Some(2), Some(0));
    let mut nj: Handoff<char> = Handoff::new('j', 0, Some(0), Some(5));

    for _ in 0..9 {
        ni.inc();
    }

    for _ in 0..1021 {
        nj.inc();
    }
    return (ni, nj);
}

fn setup2() -> (Handoff<char>, Handoff<char>) {
    let mut nk: Handoff<char> = Handoff::new('k', 2, Some(1), Some(0));
    let mut ni: Handoff<char> = Handoff::new('i', 1, Some(3), Some(0));

    ni.restore_totals(1030, 1030);

    for _ in 0..4 {
        nk.inc();
    }
    return (ni, nk);
}

#[test]
fn test1() {
    let (mut ni, mut nj) = setup();
    nj.merge(&ni); // Create the slots.
    println!("CREATE SLOT = {:?}", nj);
    assert_eq!(HashMap::from([('i', (2, 5))]), nj.get_slots());
    assert_eq!(6, nj.get_dck());
    assert_eq!(1021, nj.fetch());

    ni.merge(&nj); //Crete token.
    println!("CREATE TOKEN = {:?}", ni);
    assert_eq!(HashMap::from([(('i', 'j'), ((2, 5), 9))]), ni.get_tokens());
    assert_eq!(3, ni.get_sck());
    assert_eq!(0, ni.get_self_vals());
    assert_eq!(1030, ni.fetch());

    nj.merge(&ni); // Fill the slot.
    println!("FILL SLOT = {:?}", nj);
    assert_eq!(HashMap::new(), nj.get_slots());
    assert_eq!(1030, nj.get_self_vals());
    assert_eq!(1030, nj.fetch());

    ni.merge(&nj);
    println!("ACK, DISCARD TOKEN = {:?}", ni);
    assert_eq!(HashMap::new(), ni.get_tokens());
    assert_eq!(1030, ni.fetch());
}

#[test]
fn test2() {
    let (mut ni, mut nk) = setup2();
    ni.merge(&nk); // Create the slots.
    println!("CREATE SLOT = {:?}", ni);
    assert_eq!(HashMap::from([('k', (1, 0))]), ni.get_slots());
    assert_eq!(1, ni.get_dck());
    assert_eq!(1030, ni.fetch());

    nk.merge(&ni); //Crete token.
    println!("CREATE TOKEN = {:?}", nk);
    assert_eq!(HashMap::from([(('k', 'i'), ((1, 0), 4))]), nk.get_tokens());
    assert_eq!(2, nk.get_sck());
    assert_eq!(0, nk.get_self_vals());
    assert_eq!(1034, nk.fetch());

    ni.merge(&nk); // Fill the slot.
    println!("FILL SLOT = {:?}", ni);
    assert_eq!(HashMap::new(), ni.get_slots());
    assert_eq!(4, ni.get_self_vals());
    assert_eq!(1034, ni.fetch());

    nk.merge(&ni);
    println!("ACK, DISCARD TOKEN = {:?}", nk);
    assert_eq!(HashMap::new(), nk.get_tokens());
    assert_eq!(1034, nk.fetch());
}

#[test]
fn two_roots_join_their_vectors() {
    let mut a: Handoff<char> = Handoff::new('a', 0, None, None);
    let mut b: Handoff<char> = Handoff::new('b', 0, None, None);
    for _ in 0..3 {
        a.inc();
    }
    for _ in 0..5 {
        b.inc();
    }
    a.merge(&b);
    assert_eq!(8, a.fetch());
    assert_eq!(3, a.get_self_vals());
    b.merge(&a);
    assert_eq!(8, b.fetch());
    assert_eq!(5, b.get_self_vals());

    // The larger entry wins, entry by entry.
    a.inc();
    b.merge(&a);
    assert_eq!(9, b.fetch());
    a.merge(&b);
    assert_eq!(9, a.fetch());
}

#[test]
fn a_root_reports_the_sum_of_its_vector() {
    let mut a: Handoff<char> = Handoff::new('a', 0, None, None);
    let mut b: Handoff<char> = Handoff::new('b', 0, None, None);
    let mut c: Handoff<char> = Handoff::new('c', 0, None, None);
    a.inc();
    b.inc();
    b.inc();
    for _ in 0..4 {
        c.inc();
    }
    a.merge(&b);
    a.merge(&c);
    assert_eq!(7, a.fetch());
}

#[test]
fn siblings_combine_their_counts() {
    let mut s: Handoff<char> = Handoff::new('s', 1, None, None);
    let mut p: Handoff<char> = Handoff::new('p', 1, None, None);
    s.inc();
    s.inc();
    for _ in 0..3 {
        p.inc();
    }
    s.merge(&p);
    // max(2, 3, 0 + 2 + 3)
    assert_eq!(5, s.fetch());
    assert_eq!(2, s.get_self_vals());
}

#[test]
fn siblings_share_what_they_know_of_below() {
    let mut s: Handoff<char> = Handoff::new('s', 1, None, None);
    let mut p: Handoff<char> = Handoff::new('p', 1, None, None);
    s.restore_totals(1, 10);
    p.restore_totals(2, 40);
    s.merge(&p);
    // below becomes 40, and the count max(1, 2, 40 + 1 + 2)
    assert_eq!(43, s.fetch());
}

#[test]
fn a_descendant_learns_the_count_of_its_ancestor() {
    let mut leaf: Handoff<char> = Handoff::new('l', 2, None, None);
    let mut root: Handoff<char> = Handoff::new('r', 0, None, None);
    for _ in 0..6 {
        leaf.inc();
    }
    for _ in 0..100 {
        root.inc();
    }
    leaf.merge(&root);
    // max(6, 100 + 6)
    assert_eq!(106, leaf.fetch());
}

#[test]
fn beside_a_descendant_the_count_is_below_plus_pending_at_least() {
    let mut anc: Handoff<char> = Handoff::new('n', 1, None, None);
    anc.restore_totals(3, 7);
    anc.inc();
    let mut leaf: Handoff<char> = Handoff::new('q', 2, None, None);
    leaf.inc();
    anc.merge(&leaf);
    // The count was 4 after the increment; below + pending is 7 + 1.
    assert_eq!(8, anc.fetch());

    let mut high: Handoff<char> = Handoff::new('n', 1, None, None);
    high.restore_totals(30, 7);
    high.inc();
    high.merge(&leaf);
    assert_eq!(31, high.fetch());
}

#[test]
fn merge_never_lowers_the_count() {
    let (mut ni, mut nj) = setup();
    let mut seen_i = ni.fetch();
    let mut seen_j = nj.fetch();
    for _ in 0..4 {
        nj.merge(&ni);
        assert!(nj.fetch() >= seen_j);
        seen_j = nj.fetch();
        ni.merge(&nj);
        assert!(ni.fetch() >= seen_i);
        seen_i = ni.fetch();
    }
    assert_eq!(1030, seen_i);
    assert_eq!(1030, seen_j);
}

#[test]
fn merging_the_same_snapshot_again_changes_nothing() {
    let (ni, mut nj) = setup();
    nj.merge(&ni);
    let slots = nj.get_slots();
    let tokens = nj.get_tokens();
    let (val, pending, sck, dck) = (nj.fetch(), nj.get_self_vals(), nj.get_sck(), nj.get_dck());
    nj.merge(&ni);
    assert_eq!(slots, nj.get_slots());
    assert_eq!(tokens, nj.get_tokens());
    assert_eq!(val, nj.fetch());
    assert_eq!(pending, nj.get_self_vals());
    assert_eq!(sck, nj.get_sck());
    assert_eq!(dck, nj.get_dck());
}

#[test]
fn merging_the_answer_again_changes_nothing() {
    let (mut ni, mut nj) = setup();
    nj.merge(&ni);
    ni.merge(&nj);
    let tokens = ni.get_tokens();
    let (val, pending, sck, dck) = (ni.fetch(), ni.get_self_vals(), ni.get_sck(), ni.get_dck());
    ni.merge(&nj);
    assert_eq!(tokens, ni.get_tokens());
    assert_eq!(val, ni.fetch());
    assert_eq!(pending, ni.get_self_vals());
    assert_eq!(sck, ni.get_sck());
    assert_eq!(dck, ni.get_dck());
}

#[test]
fn merge_leaves_the_peer_as_it_was() {
    let (ni, mut nj) = setup();
    nj.merge(&ni);
    assert_eq!(9, ni.fetch());
    assert_eq!(9, ni.get_self_vals());
    assert_eq!(2, ni.get_sck());
    assert_eq!(HashMap::new(), ni.get_slots());
    assert_eq!(HashMap::new(), ni.get_tokens());
}

#[test]
fn an_outdated_slot_is_closed() {
    let mut leaf: Handoff<char> = Handoff::new('k', 2, Some(1), None);
    leaf.inc();
    let mut first: Handoff<char> = Handoff::new('i', 1, None, None);
    let mut second: Handoff<char> = Handoff::new('h', 1, None, None);
    first.merge(&leaf);
    second.merge(&leaf);
    assert_eq!(HashMap::from([('k', (1, 0))]), first.get_slots());

    // The leaf hands off to `second`; its source clock passes 1.
    leaf.merge(&second);
    assert_eq!(2, leaf.get_sck());
    assert_eq!(HashMap::from([(('k', 'h'), ((1, 0), 1))]), leaf.get_tokens());

    first.merge(&leaf);
    assert_eq!(HashMap::new(), first.get_slots());
    assert_eq!(0, first.get_self_vals());
}

#[test]
fn a_token_travels_through_a_replica_between() {
    // `k` hands off to `i`, but only meets the root `j`, which meets `i`.
    let mut k: Handoff<char> = Handoff::new('k', 2, Some(1), None);
    for _ in 0..4 {
        k.inc();
    }
    let mut i: Handoff<char> = Handoff::new('i', 1, None, None);
    let mut j: Handoff<char> = Handoff::new('j', 0, None, Some(9));

    i.merge(&k);
    assert_eq!(HashMap::from([('k', (1, 0))]), i.get_slots());
    k.merge(&i);
    assert_eq!(HashMap::from([(('k', 'i'), ((1, 0), 4))]), k.get_tokens());

    j.merge(&k);
    assert_eq!(HashMap::from([(('k', 'i'), ((1, 0), 4))]), j.get_tokens());

    i.merge(&j);
    assert_eq!(HashMap::new(), i.get_slots());
    assert_eq!(4, i.get_self_vals());
}

#[test]
fn a_replica_of_a_higher_tier_takes_over_no_token() {
    let (mut ni, mut nj) = setup();
    nj.merge(&ni);
    ni.merge(&nj);
    let mut leaf: Handoff<char> = Handoff::new('k', 2, None, None);
    leaf.merge(&ni);
    assert_eq!(HashMap::new(), leaf.get_tokens());
}

#[test]
fn a_relayed_token_gives_way_to_a_later_one_only() {
    let mut k: Handoff<char> = Handoff::new('k', 2, Some(1), None);
    for _ in 0..4 {
        k.inc();
    }
    let mut i: Handoff<char> = Handoff::new('i', 1, None, None);
    let mut j: Handoff<char> = Handoff::new('j', 0, None, Some(9));

    i.merge(&k);
    k.merge(&i);
    let early = k.clone();
    j.merge(&early);
    assert_eq!(HashMap::from([(('k', 'i'), ((1, 0), 4))]), j.get_tokens());

    // The first handoff completes and a second one begins.
    i.merge(&k);
    k.merge(&i);
    assert_eq!(HashMap::new(), k.get_tokens());
    k.inc();
    k.inc();
    i.merge(&k);
    assert_eq!(HashMap::from([('k', (2, 1))]), i.get_slots());
    k.merge(&i);
    assert_eq!(HashMap::from([(('k', 'i'), ((2, 1), 2))]), k.get_tokens());
    assert_eq!(6, k.fetch());

    j.merge(&k);
    assert_eq!(HashMap::from([(('k', 'i'), ((2, 1), 2))]), j.get_tokens());
    j.merge(&early);
    assert_eq!(HashMap::from([(('k', 'i'), ((2, 1), 2))]), j.get_tokens());
    assert_eq!(HashMap::new(), j.get_slots());
}

#[test]
fn siblings_do_add_up_again_on_a_second_merge() {
    let mut s: Handoff<char> = Handoff::new('s', 1, None, None);
    let mut p: Handoff<char> = Handoff::new('p', 1, None, None);
    s.inc();
    p.inc();
    s.merge(&p);
    assert_eq!(2, s.fetch());
    s.merge(&p);
    assert_eq!(3, s.fetch());
}

#[test]
fn integer_identifiers_work_as_well() {
    let mut leaf: Handoff<u64> = Handoff::new(10, 1, None, None);
    let mut root: Handoff<u64> = Handoff::new(20, 0, None, None);
    leaf.inc();
    leaf.inc();
    root.merge(&leaf);
    leaf.merge(&root);
    root.merge(&leaf);
    leaf.merge(&root);
    assert_eq!(2, root.fetch());
    assert_eq!(2, leaf.fetch());
    assert_eq!(HashMap::new(), root.get_slots());
    assert_eq!(HashMap::new(), leaf.get_tokens());
    assert_eq!(1, leaf.get_sck());
    assert_eq!(1, root.get_dck());
}
