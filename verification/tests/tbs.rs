use aozoraepub3_to_azw3::kf8::tbs::{
    calculate_all_tbs, collect_indexing_data, encode_strands_as_sequences, encode_tbs_sequence,
    fill_entry, flatten_tbs_seeds, populate_strand, separate_strands, sequences_to_bytes,
    tbs_error, EntryAction, LocalTbsEntry, Sequence, SequenceExtra, TbsEncodingError, TbsEntry,
    TbsSeed,
};
use aozoraepub3_to_azw3::kindle::KindleNavigationItem;
use aozoraepub3_to_azw3::Error;

fn entry(index: usize, start: usize, length: usize, depth: usize, parent: Option<usize>) -> TbsEntry {
    TbsEntry { index, start, length, depth, parent }
}

fn local(index: usize, depth: usize, parent: Option<usize>) -> LocalTbsEntry {
    fill_entry(&entry(index, 0, 10, depth, parent), 0, 100)
}

#[test]
fn entry_actions() {
    let e = entry(0, 0, 10, 0, None);
    assert_eq!(fill_entry(&e, -5, 100).action, EntryAction::Ends);
    assert_eq!(fill_entry(&e, -5, 3).action, EntryAction::Spans);
    assert_eq!(fill_entry(&e, 95, 100).action, EntryAction::Starts);
    assert_eq!(fill_entry(&e, 0, 100).action, EntryAction::Completes);
    assert_eq!(fill_entry(&e, 95, 100).length_offset, 105);
}

#[test]
fn sequence_flags_and_bytes() {
    let extra = SequenceExtra { spans: true, tbs_type: Some(2), count: Some(3), forwards: true };
    assert_eq!(extra.flags(), 0b1111);
    assert_eq!(SequenceExtra::empty().flags(), 0);
    let sequence = Sequence { value: 1, extra };
    assert_eq!(encode_tbs_sequence(sequence, 4).unwrap(), vec![0x9f, 0x82, 3, 0x80]);
    let plain = Sequence { value: 2, extra: SequenceExtra::empty() };
    assert_eq!(encode_tbs_sequence(plain, 3).unwrap(), vec![0x90]);
    let too_many = Sequence {
        value: 0,
        extra: SequenceExtra { spans: false, tbs_type: None, count: Some(256), forwards: false },
    };
    assert_eq!(encode_tbs_sequence(too_many, 3), Err(TbsEncodingError::SiblingCountTooLarge));
    let too_large = Sequence { value: 1 << 29, extra: SequenceExtra::empty() };
    assert_eq!(encode_tbs_sequence(too_large, 4).unwrap(), vec![0x80]);
    assert_eq!(
        encode_tbs_sequence(Sequence { value: 0, extra: SequenceExtra::empty() }, 32),
        Err(TbsEncodingError::ValueTooLarge)
    );
}

#[test]
fn sequences_use_three_then_four_flag_bits() {
    let a = Sequence { value: 1, extra: SequenceExtra::empty() };
    let b = Sequence { value: 1, extra: SequenceExtra::empty() };
    assert_eq!(sequences_to_bytes(&[a, b]).unwrap(), vec![0x88, 0x90]);
}

#[test]
fn strands_follow_children_then_siblings() {
    let mut entries = vec![local(1, 1, Some(0)), local(2, 1, Some(0)), local(3, 0, None)];
    let strand = populate_strand(local(0, 0, None), &mut entries);
    let indexes: Vec<usize> = strand.iter().map(|e| e.entry.index).collect();
    assert_eq!(indexes, vec![0, 1, 2]);
    assert_eq!(entries.len(), 1);
    assert_eq!(entries[0].entry.index, 3);
}

#[test]
fn separate_groups_layers_by_depth() {
    let entries = vec![local(0, 0, None), local(1, 1, Some(0)), local(2, 1, Some(0))];
    let strands = separate_strands(entries);
    assert_eq!(strands.len(), 1);
    assert_eq!(strands[0].len(), 2);
    assert_eq!(strands[0][0].0, 0);
    assert_eq!(strands[0][0].1.len(), 1);
    assert_eq!(strands[0][1].0, 1);
    assert_eq!(strands[0][1].1.len(), 2);
}

#[test]
fn indexing_data_per_record() {
    let entries = vec![entry(1, 50, 100, 0, None), entry(0, 0, 50, 0, None)];
    let data = collect_indexing_data(&entries, &[100, 100]).unwrap();
    assert_eq!(data.len(), 2);
    let first: Vec<usize> = data[0].iter().flat_map(|strand| strand.iter().flat_map(|(_, layer)| layer.iter().map(|e| e.entry.index))).collect();
    assert_eq!(first, vec![0, 1]);
    let second: Vec<usize> = data[1].iter().flat_map(|strand| strand.iter().flat_map(|(_, layer)| layer.iter().map(|e| e.entry.index))).collect();
    assert_eq!(second, vec![1]);
    assert_eq!(data[1][0][0].1[0].action, EntryAction::Ends);
    assert_eq!(data[0][0][0].1[0].action, EntryAction::Completes);
}

#[test]
fn indexing_data_reports_overflow() {
    let entries = vec![entry(0, usize::MAX, 1, 0, None)];
    match collect_indexing_data(&entries, &[1]) {
        Err(Error::Output(message)) => assert_eq!(message, "TBS entry position overflow"),
        other => panic!("unexpected {other:?}"),
    }
    match collect_indexing_data(&[], &[usize::MAX, 1]) {
        Err(Error::Output(message)) => assert_eq!(message, "TBS record position overflow"),
        other => panic!("unexpected {other:?}"),
    }
}

#[test]
fn all_tbs_bytes() {
    let entries = vec![entry(0, 0, 50, 0, None), entry(1, 50, 100, 0, None)];
    let data = collect_indexing_data(&entries, &[100, 100]).unwrap();
    let tbs = calculate_all_tbs(&data, 2).unwrap();
    assert_eq!(tbs.len(), 2);
    let sequences = encode_strands_as_sequences(&data[0], 2).unwrap();
    assert_eq!(sequences.len(), 1);
    assert_eq!(sequences[0].extra.count, Some(2));
    assert_eq!(sequences[0].extra.tbs_type, Some(2));
    assert_eq!(tbs[0], vec![0x86, 0x82, 2]);
}

#[test]
fn tbs_error_messages() {
    match tbs_error(TbsEncodingError::ValueTooLarge) {
        Error::Output(message) => assert_eq!(message, "TBS value exceeds u32"),
        other => panic!("unexpected {other:?}"),
    }
}

#[test]
fn seeds_skip_items_without_targets() {
    let items = vec![
        KindleNavigationItem {
            label: "Part".to_owned(),
            href: String::new(),
            children: vec![KindleNavigationItem {
                label: "One".to_owned(),
                href: "a.xhtml".to_owned(),
                children: vec![KindleNavigationItem {
                    label: "Section".to_owned(),
                    href: "a.xhtml#s".to_owned(),
                    children: Vec::new(),
                }],
            }],
        },
        KindleNavigationItem { label: "Two".to_owned(), href: "b.xhtml".to_owned(), children: Vec::new() },
    ];
    let mut seeds: Vec<TbsSeed> = Vec::new();
    flatten_tbs_seeds(&items, 0, None, &mut seeds);
    let shape: Vec<(usize, usize, Option<usize>)> =
        seeds.iter().map(|s| (s.entry.index, s.entry.depth, s.entry.parent)).collect();
    assert_eq!(shape, vec![(0, 0, None), (1, 1, Some(0)), (2, 0, None)]);
}
