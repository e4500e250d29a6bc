//! Scenarios of editing a sequence.
use lseq::actor::Actor;
use lseq::identifier::Identifier;
use lseq::{LSeq, LSeqStrategy, Op};

// helper to apply an operation that the sequence can take in
fn apply<V: Ord + Clone, A: Actor>(lseq: &mut LSeq<V, A>, op: Op<V, A>) {
    if !lseq.accepts(&op) {
        panic!("the operation is not accepted");
    }
    lseq.apply(op);
}

// helper to insert between two elements given their index in the sequence
fn insert_between_i_j<V: Ord + Clone, A: Actor>(
    lseq: &mut LSeq<V, A>,
    i: Option<usize>,
    j: Option<usize>,
    value: V,
    actor: A,
) {
    let seq = lseq.read();
    let i_id = i.map(|index| seq.val[index].0.clone());
    let j_id = j.map(|index| seq.val[index].0.clone());
    let add_ctx = seq.derive_add_ctx(actor);
    let op = lseq.insert(value, i_id, j_id, add_ctx.clone());
    apply(lseq, op);
}

// helper to delete an element given its index in the sequence
fn delete_index<V: Ord + Clone, A: Actor>(
    lseq: &mut LSeq<V, A>,
    index: usize,
) {
    let seq = lseq.read();
    let rm_ctx = seq.derive_rm_ctx();
    let id = &seq.val[index].0;
    let op = lseq.delete(id.clone(), rm_ctx.clone());
    apply(lseq, op);
}

#[test]
fn test_append() {
    let mut lseq = LSeq::<char, u64>::new(1, 4, LSeqStrategy::BoundaryPlus);
    let actor = 100;

    // Append A to [] (between BEGIN and END)
    insert_between_i_j(&mut lseq, None, None, 'A', actor);

    // Append B to [A] (between A and END)
    insert_between_i_j(&mut lseq, Some(0), None, 'B', actor);

    // Append C to [A, B] (between B and END)
    insert_between_i_j(&mut lseq, Some(1), None, 'C', actor);

    // Append D to [A, B, C] (between C and END)
    insert_between_i_j(&mut lseq, Some(2), None, 'D', actor);

    // Test identifiers and values
    let seq_values = lseq.read().val;
    assert_eq!(seq_values.len(), 4);

    let (a_id, a_val, _) = &seq_values[0];
    let (b_id, b_val, _) = &seq_values[1];
    let (c_id, c_val, _) = &seq_values[2];
    let (d_id, d_val, _) = &seq_values[3];

    assert_eq!(*a_id, Identifier::new(&[1]));
    assert_eq!(*b_id, Identifier::new(&[2]));
    assert_eq!(*c_id, Identifier::new(&[3]));
    assert_eq!(*d_id, Identifier::new(&[3, 1]));

    assert_eq!(*a_val, 'A');
    assert_eq!(*b_val, 'B');
    assert_eq!(*c_val, 'C');
    assert_eq!(*d_val, 'D');
}

#[test]
fn test_delete() {
    let mut lseq = LSeq::<char, u64>::new(1, 4, LSeqStrategy::BoundaryPlus);
    let actor = 100;

    // Append A to [] (between BEGIN and END)
    insert_between_i_j(&mut lseq, None, None, 'A', actor);

    // Append B to [A] (between A and END)
    insert_between_i_j(&mut lseq, Some(0), None, 'B', actor);

    // Append C to [A, B] (between B and END)
    insert_between_i_j(&mut lseq, Some(1), None, 'C', actor);

    // Delete B from [A, B, C]
    delete_index(&mut lseq, 1);

    // Test identifiers and values
    let seq_values = lseq.read().val;
    assert_eq!(seq_values.len(), 2);

    let (a_id, a_val, _) = &seq_values[0];
    let (c_id, c_val, _) = &seq_values[1];

    assert_eq!(*a_id, Identifier::new(&[1]));
    assert_eq!(*c_id, Identifier::new(&[3]));

    assert_eq!(*a_val, 'A');
    assert_eq!(*c_val, 'C');
}

#[test]
fn test_insert_op_already_applied() {
    let mut lseq = LSeq::<char, u64>::new(10, 32, LSeqStrategy::BoundaryPlus);
    let actor1 = 100;
    let actor2 = 200;

    // actor1 inserts A to [] (between BEGIN and END)
    let add_ctx1 = lseq.read_ctx().derive_add_ctx(actor1);
    let op_actor1 = lseq.insert('A', None, None, add_ctx1.clone());
    apply(&mut lseq, op_actor1.clone());

    // actor2 inserts B to [A] (between A and END)
    let seq = lseq.read();
    let add_ctx2 = seq.derive_add_ctx(actor2);
    let (a_id, _, _) = &seq.val[0];
    let op_actor2 = lseq.insert('B', Some(a_id.clone()), None, add_ctx2.clone());
    apply(&mut lseq, op_actor2.clone());

    // lseq now sees both insert operations again as they were broadcasted by other sites again
    apply(&mut lseq, op_actor1.clone());
    apply(&mut lseq, op_actor2.clone());

    // Test that only two insert operations were persisted
    let seq_values = lseq.read().val;
    assert_eq!(seq_values.len(), 2);

    let (a_id, a_val, _) = &seq_values[0];
    let (b_id, b_val, _) = &seq_values[1];

    assert_eq!(*a_id, Identifier::new(&[6]));
    assert_eq!(*b_id, Identifier::new(&[12]));

    assert_eq!(*a_val, 'A');
    assert_eq!(*b_val, 'B');
}

#[test]
fn test_insert_p_higher_depth_than_q() {
    let mut lseq = LSeq::<char, u64>::new(1, 4, LSeqStrategy::BoundaryPlus);
    let actor = 100;

    // insert A to [] (between BEGIN and END)
    insert_between_i_j(&mut lseq, None, None, 'A', actor);

    // insert B to [A] (between A and END)
    insert_between_i_j(&mut lseq, Some(0), None, 'B', actor);

    // insert C to [A, B] (between A and B)
    insert_between_i_j(&mut lseq, Some(0), Some(1), 'C', actor);

    // insert D to [A, C, B] (between C and B)
    insert_between_i_j(&mut lseq, Some(1), Some(2), 'D', actor);

    // Test identifiers and values are in correct order in the sequence
    let seq_values = lseq.read().val;
    assert_eq!(seq_values.len(), 4);
    let (a_id, a_val, _) = &seq_values[0];
    let (c_id, c_val, _) = &seq_values[1];
    let (d_id, d_val, _) = &seq_values[2];
    let (b_id, b_val, _) = &seq_values[3];

    assert_eq!(*a_id, Identifier::new(&[1]));
    assert_eq!(*b_id, Identifier::new(&[2]));
    assert_eq!(*a_val, 'A');
    assert_eq!(*b_val, 'B');

    assert_eq!(*c_id, Identifier::new(&[1, 1]));
    assert_eq!(*c_val, 'C');

    assert_eq!(*d_id, Identifier::new(&[1, 2]));
    assert_eq!(*d_val, 'D');
}

#[test]
fn test_insert_q_higher_depth_than_p() {
    let mut lseq = LSeq::<char, u64>::new(1, 4, LSeqStrategy::BoundaryPlus);
    let actor = 100;

    // insert A to [] (between BEGIN and END)
    insert_between_i_j(&mut lseq, None, None, 'A', actor);

    // insert B to [A] (between A and END)
    insert_between_i_j(&mut lseq, Some(0), None, 'B', actor);

    // insert C to [A, B] (between B and END)
    insert_between_i_j(&mut lseq, Some(1), None, 'C', actor);

    // insert D to [A, B, C] (between C and END)
    insert_between_i_j(&mut lseq, Some(2), None, 'D', actor);

    // insert E to [A, B, C, D] (between B and D)
    insert_between_i_j(&mut lseq, Some(1), Some(3), 'E', actor);

    // Test identifiers and values are in correct order in the sequence
    let seq_values = lseq.read().val;
    assert_eq!(seq_values.len(), 5);
    let (a_id, a_val, _) = &seq_values[0];
    let (b_id, b_val, _) = &seq_values[1];
    let (e_id, e_val, _) = &seq_values[2];
    let (c_id, c_val, _) = &seq_values[3];
    let (d_id, d_val, _) = &seq_values[4];

    assert_eq!(*a_id, Identifier::new(&[1]));
    assert_eq!(*b_id, Identifier::new(&[2]));
    assert_eq!(*a_val, 'A');
    assert_eq!(*b_val, 'B');

    assert_eq!(*e_id, Identifier::new(&[2, 1]));
    assert_eq!(*e_val, 'E');

    assert_eq!(*c_id, Identifier::new(&[3]));
    assert_eq!(*c_val, 'C');

    assert_eq!(*d_id, Identifier::new(&[3, 1]));
    assert_eq!(*d_val, 'D');
}

#[test]
fn test_insert_at_begining() {
    let mut lseq = LSeq::<char, u64>::new(10, 32, LSeqStrategy::Alternate);
    let actor = 100;

    // Insert A to [] (between BEGIN and END)
    insert_between_i_j(&mut lseq, None, None, 'A', actor);

    // Insert B to [A] (between BEGIN and A)
    insert_between_i_j(&mut lseq, None, Some(0), 'B', actor);

    // Insert C to [B, A] (between BEGIN and B)
    insert_between_i_j(&mut lseq, None, Some(0), 'C', actor);

    // Test identifiers and values are in correct order in the sequence
    let seq_values = lseq.read().val;
    assert_eq!(seq_values.len(), 3);
    let (c_id, c_val, _) = &seq_values[0];
    let (b_id, b_val, _) = &seq_values[1];
    let (a_id, a_val, _) = &seq_values[2];

    assert_eq!(*c_id, Identifier::new(&[2]));
    assert_eq!(*b_id, Identifier::new(&[3]));
    assert_eq!(*a_id, Identifier::new(&[6]));
    assert_eq!(*c_val, 'C');
    assert_eq!(*b_val, 'B');
    assert_eq!(*a_val, 'A');
}

#[test]
fn test_insert_between_begin_and_first() {
    // in this test we try to insert between BEGIN and the very first Identifier,
    // in the scenario when there is no available slot between them and therefore a new level
    // is created with some 0 in the Identifier but ending with a non-0 number, e.g. [0,1]
    let mut lseq = LSeq::<char, u64>::new(1, 4, LSeqStrategy::BoundaryPlus);
    let actor = 100;

    // Insert A to [] (between BEGIN and END)
    insert_between_i_j(&mut lseq, None, None, 'A', actor);

    // Insert B to [A] (between BEGIN and A)
    insert_between_i_j(&mut lseq, None, Some(0), 'B', actor);

    // Insert C to [B, A] (between BEGIN and B)
    insert_between_i_j(&mut lseq, None, Some(0), 'C', actor);

    // Test identifiers and values are in correct order in the sequence
    let seq_values = lseq.read().val;
    assert_eq!(seq_values.len(), 3);
    let (c_id, c_val, _) = &seq_values[0];
    let (b_id, b_val, _) = &seq_values[1];
    let (a_id, a_val, _) = &seq_values[2];

    assert_eq!(*c_id, Identifier::new(&[0, 0, 1]));
    assert_eq!(*b_id, Identifier::new(&[0, 1]));
    assert_eq!(*a_id, Identifier::new(&[1]));
    assert_eq!(*c_val, 'C');
    assert_eq!(*b_val, 'B');
    assert_eq!(*a_val, 'A');
}

#[test]
fn test_insert_between_last_and_end() {
    // in this test we try to insert between the very last Identifier possible
    // at current tree's height, and END (i.e. an append)
    let mut lseq = LSeq::<char, u64>::new(2, 4, LSeqStrategy::BoundaryPlus);
    let actor = 100;

    // Insert A to [] (between BEGIN and END)
    insert_between_i_j(&mut lseq, None, None, 'A', actor);

    // Insert B to [A] (between A and END)
    insert_between_i_j(&mut lseq, Some(0), None, 'B', actor);

    // Insert C to [A, B] (between B and END)
    insert_between_i_j(&mut lseq, Some(1), None, 'C', actor);

    // Insert D to [A, B, C] (between C and END)
    insert_between_i_j(&mut lseq, Some(2), None, 'D', actor);

    // Test identifiers and values are in correct order in the sequence
    let seq_values = lseq.read().val;
    assert_eq!(seq_values.len(), 4);
    let (a_id, a_val, _) = &seq_values[0];
    let (b_id, b_val, _) = &seq_values[1];
    let (c_id, c_val, _) = &seq_values[2];
    let (d_id, d_val, _) = &seq_values[3];

    assert_eq!(*a_id, Identifier::new(&[2]));
    assert_eq!(*b_id, Identifier::new(&[3]));
    assert_eq!(*c_id, Identifier::new(&[3, 2]));
    assert_eq!(*d_id, Identifier::new(&[3, 4]));
    assert_eq!(*a_val, 'A');
    assert_eq!(*b_val, 'B');
    assert_eq!(*c_val, 'C');
    assert_eq!(*d_val, 'D');
}

#[test]
fn test_insert_concurrent() {
    let lseq = LSeq::<char, u64>::new(1, 4, LSeqStrategy::BoundaryPlus);
    let mut site1_seq = lseq.clone();
    let mut site2_seq = lseq.clone();
    let actor1 = 100;
    let actor2 = 200;

    let seq = lseq.read_ctx();
    let add_ctx1 = seq.derive_add_ctx(actor1);
    let add_ctx2 = seq.derive_add_ctx(actor2);

    // actor1 and actor2 insert concurrently A and B to [] (between BEGIN and END)
    let op_actor1 = lseq.insert('A', None, None, add_ctx1.clone());
    let op_actor2 = lseq.insert('B', None, None, add_ctx2.clone());

    // in site1 we see concurrent ops, first from actor1 then from actor2
    apply(&mut site1_seq, op_actor1.clone());
    apply(&mut site1_seq, op_actor2.clone());

    // in site2 we see concurrent ops in opposite order, first from actor2 then from actor1
    apply(&mut site2_seq, op_actor2.clone());
    apply(&mut site2_seq, op_actor1);

    // actor1 inserts a C to [A, B] (between B and END)
    let seq = site1_seq.read();
    let (b_id, _, _) = &seq.val[1];
    let add_ctx1 = seq.derive_add_ctx(actor1);
    let op_actor1 = site1_seq.insert('C', Some(b_id.clone()), None, add_ctx1.clone());
    apply(&mut site1_seq, op_actor1.clone());
    apply(&mut site2_seq, op_actor1);

    // lastly actor1 inserts a children of the MajorNode A/B (the node holding mini-nodes)
    // i.e. D to [A, B, C] (between A and C)
    let seq = site1_seq.read();
    let (a_id, _, _) = &seq.val[0];
    let (c_id, _, _) = &seq.val[2];
    let add_ctx1 = seq.derive_add_ctx(actor1);
    let op_actor1 = site1_seq.insert(
        'D',
        Some(a_id.clone()),
        Some(c_id.clone()),
        add_ctx1.clone(),
    );
    apply(&mut site1_seq, op_actor1.clone());
    apply(&mut site2_seq, op_actor1);

    // Test we read the exact same sequence from both sites
    let seq1_values = site1_seq.read().val;
    let seq2_values = site2_seq.read().val;
    assert_eq!(seq1_values.len(), 4);
    assert_eq!(seq2_values.len(), 4);
    assert_eq!(seq1_values[0], seq2_values[0]);
    assert_eq!(seq1_values[1], seq2_values[1]);
    assert_eq!(seq1_values[2], seq2_values[2]);
    assert_eq!(seq1_values[3], seq2_values[3]);

    // due to clock being the disambiguator, value A should be before B since actor1 (100) < actor2 (200)
    let (a_id, a_val, _) = &seq1_values[0];
    let (b_id, b_val, _) = &seq1_values[1];
    let (d_id, d_val, _) = &seq1_values[2];
    let (c_id, c_val, _) = &seq1_values[3];

    assert_eq!(*a_id, Identifier::new(&[1]));
    assert_eq!(*b_id, Identifier::new(&[1]));
    assert_eq!(*d_id, Identifier::new(&[1, 1]));
    assert_eq!(*c_id, Identifier::new(&[2]));
    assert_eq!(*a_val, 'A');
    assert_eq!(*b_val, 'B');
    assert_eq!(*d_val, 'D');
    assert_eq!(*c_val, 'C');
}

#[test]
fn test_several_inserts() {
    let mut lseq = LSeq::<char, u64>::new(4, 4, LSeqStrategy::BoundaryPlus);
    let actor = 100;

    // Insert A to [] (between BEGIN and END)
    insert_between_i_j(&mut lseq, None, None, 'A', actor);

    // Insert B to [A] (between BEGIN and A)
    insert_between_i_j(&mut lseq, None, Some(0), 'B', actor);

    // Insert C to [B, A] (between B and A)
    insert_between_i_j(&mut lseq, Some(0), Some(1), 'C', actor);

    // Insert D to [B, C, A] (between C and A)
    insert_between_i_j(&mut lseq, Some(1), Some(2), 'D', actor);

    // Insert E to [B, C, D, A] (between B and C)
    insert_between_i_j(&mut lseq, Some(0), Some(1), 'E', actor);

    // Insert F to [B, E, C, D, A] (between D and A)
    insert_between_i_j(&mut lseq, Some(3), Some(4), 'F', actor);

    // Test identifiers and values are in correct order in the sequence [B, E, C, D, F, A]
    let seq_values = lseq.read().val;
    assert_eq!(seq_values.len(), 6);
    let (b_id, b_val, _) = &seq_values[0];
    let (e_id, e_val, _) = &seq_values[1];
    let (c_id, c_val, _) = &seq_values[2];
    let (d_id, d_val, _) = &seq_values[3];
    let (f_id, f_val, _) = &seq_values[4];
    let (a_id, a_val, _) = &seq_values[5];

    assert_eq!(*b_id, Identifier::new(&[1]));
    assert_eq!(*e_id, Identifier::new(&[1, 2]));
    assert_eq!(*c_id, Identifier::new(&[1, 3]));
    assert_eq!(*d_id, Identifier::new(&[1, 6]));
    assert_eq!(*f_id, Identifier::new(&[1, 7]));
    assert_eq!(*a_id, Identifier::new(&[2]));
    assert_eq!(*b_val, 'B');
    assert_eq!(*e_val, 'E');
    assert_eq!(*c_val, 'C');
    assert_eq!(*d_val, 'D');
    assert_eq!(*f_val, 'F');
    assert_eq!(*a_val, 'A');
}

#[test]
#[should_panic]
fn test_insert_p_greater_than_q() {
    let mut lseq = LSeq::<char, u64>::new(2, 2, LSeqStrategy::Alternate);
    let actor = 100;

    // Insert A to [] (between BEGIN and END)
    insert_between_i_j(&mut lseq, None, None, 'A', actor);

    // Insert B to [A] (between A and END)
    insert_between_i_j(&mut lseq, Some(0), None, 'B', actor);

    // Insert C to [A, B] (between B and A == wrong order)
    insert_between_i_j(&mut lseq, Some(1), Some(0), 'C', actor); // should panic
}


#[test]
fn test_insert_nonexisting_id() {
    let mut lseq = LSeq::<char, u64>::default();
    let actor = 100;

    // Insert A to [] (between BEGIN and END)
    insert_between_i_j(&mut lseq, None, None, 'A', actor);

    // Insert B to [A] (between BEGIN and <invalid id>)
    let seq = lseq.read().val;
    assert_eq!(seq.len(), 1);

    let add_ctx = lseq.read_ctx().derive_add_ctx(actor);
    let op = lseq.insert('B', None, Some(Identifier::new(&[11])), add_ctx.clone());
    // should fail? will VClock help us here to know it's just an id we are not aware of yet??
    apply(&mut lseq, op);
}
