use warkov::context::{compare_contexts, copy_context, drop_front};
use warkov::symbol::{compare, duplicate, Rank};
use warkov::table::ContextTable;

#[test]
fn keys_are_ranked_by_their_order() {
    assert_eq!(compare(&1u32, &2u32), Rank::Before);
    assert_eq!(compare(&2u32, &2u32), Rank::Same);
    assert_eq!(compare(&3u32, &2u32), Rank::After);
    assert_eq!(compare(&None, &Some('a')), Rank::Before);
    assert_eq!(compare(&Some('b'), &Some('a')), Rank::After);
    assert_eq!(compare(&None::<char>, &None), Rank::Same);
    assert_eq!(duplicate(&Some('q')), Some('q'));
}

#[test]
fn contexts_are_ranked_lexicographically() {
    let a = Some('a');
    let b = Some('b');
    assert_eq!(compare_contexts(&[a, b], &[a, b]), Rank::Same);
    assert_eq!(compare_contexts(&[a], &[a, b]), Rank::Before);
    assert_eq!(compare_contexts(&[a, b], &[a]), Rank::After);
    assert_eq!(compare_contexts(&[a, b], &[b]), Rank::Before);
    assert_eq!(compare_contexts(&[None, b], &[a]), Rank::Before);
    assert_eq!(compare_contexts(&[b], &[a, b]), Rank::After);
    assert_eq!(compare_contexts::<Option<char>>(&[], &[]), Rank::Same);
    assert_eq!(compare_contexts(&[], &[None::<char>]), Rank::Before);
    assert_eq!(copy_context(&[a, None, b]), vec![a, None, b]);
}

#[test]
fn dropping_from_the_front_keeps_the_rest() {
    let mut v = vec![1, 2, 3, 4];
    drop_front(&mut v, 0);
    assert_eq!(v, vec![1, 2, 3, 4]);
    drop_front(&mut v, 3);
    assert_eq!(v, vec![4]);
    drop_front(&mut v, 1);
    assert!(v.is_empty());
}

#[test]
fn the_table_finds_contexts_in_any_order_of_arrival() {
    let mut table: ContextTable<u32> = ContextTable::new();
    let contexts: Vec<Vec<u32>> = vec![
        vec![5],
        vec![1, 2],
        vec![9, 9, 9],
        vec![1],
        vec![5, 0],
        vec![0],
        vec![1, 2, 3],
        vec![4, 4],
    ];
    for (i, context) in contexts.iter().enumerate() {
        assert!(!table.contains(context));
        for _ in 0..=i {
            table.record(context, 7);
        }
        table.record(context, 8);
    }
    for (i, context) in contexts.iter().enumerate() {
        let stats = table.get(context).unwrap();
        assert_eq!(stats.count(&7), i + 1);
        assert_eq!(stats.count(&8), 1);
        assert_eq!(stats.total(), i + 2);
    }
    assert!(table.get(&[1, 3]).is_none());
    assert!(table.get(&[]).is_none());
    assert!(table.get(&[9, 9]).is_none());
}
