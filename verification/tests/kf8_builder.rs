use aozoraepub3_to_azw3::book::layout::{Direction, PageProgression, WritingMode};
use aozoraepub3_to_azw3::error::Error;
use aozoraepub3_to_azw3::kf8::builder::{assemble_records, record0_exth, record0_palmdoc};
use aozoraepub3_to_azw3::kf8::resource::BinaryResourceGeometry;
use aozoraepub3_to_azw3::kindle::ir::{KindleLayout, KindleMetadata};
use aozoraepub3_to_azw3::kf8::builder::{SectionParts, TextData, TextGeometry, build_indexes, build_text_records};
use aozoraepub3_to_azw3::kf8::skel::Skel;
use aozoraepub3_to_azw3::kf8::guide::{Guide, GuidePosition};
use aozoraepub3_to_azw3::kf8::fragment::{Fragment, FragmentEntry};

fn geometry(skeleton: &[u8], fragments: &[&[u8]], css: &[&[u8]], pages: &[&[u8]], rawml_length: usize) -> TextGeometry {
    TextGeometry {
        section_parts: vec![SectionParts {
            skeleton: skeleton.to_vec(),
            fragments: fragments.iter().map(|f| f.to_vec()).collect(),
        }],
        css_flows: css.iter().map(|f| f.to_vec()).collect(),
        css_flow_lengths: css.iter().map(|f| f.len()).collect(),
        page_flows: pages.iter().map(|f| f.to_vec()).collect(),
        rawml_length,
        library_thumbnail: None,
    }
}

#[test]
fn text_records_of_the_logical_stream() {
    let skeleton = vec![b's'; 3000];
    let fragment = vec![b'f'; 2000];
    let css = b"p{}".to_vec();
    let page = b"page".to_vec();
    let total = 3000 + 2000 + 3 + 4;
    let data = match build_text_records(geometry(&skeleton, &[&fragment], &[&css], &[&page], total)) {
        Ok(d) => d,
        Err(e) => panic!("unexpected {e:?}"),
    };
    assert_eq!(data.text_records.len(), 2);
    assert_eq!(data.text_record_count, 2);
    assert_eq!(data.text_records[0].data.len(), 4096);
    assert_eq!(data.text_records[1].data.len(), total - 4096);
    assert_eq!(&data.text_records[1].data[total - 4096 - 7..], b"p{}page");
    assert_eq!(data.text_length_u32, total as u32);
    assert_eq!(data.xhtml_length_u32, 5000);
    assert_eq!(data.skel.entries.len(), 1);
    assert_eq!(data.skel.entries[0].start, 0);
    assert_eq!(data.skel.entries[0].length, 3000);
    assert_eq!(data.skel.entries[0].fragment_count, 1);
    assert_eq!(data.css_flow_lengths, vec![3]);
    assert_eq!(data.page_flow_lengths, vec![4]);
}

#[test]
fn text_records_must_match_the_declared_length() {
    match build_text_records(geometry(b"abc", &[], &[], &[], 5000)) {
        Err(Error::Output(m)) => assert_eq!(m, "PalmDOC text records do not match fixed 4096-byte coordinates"),
        other => panic!("unexpected {:?}", other.map(|_| ())),
    }
    match build_text_records(geometry(b"abc", &[], &[], &[], 4)) {
        Err(Error::Output(m)) => assert_eq!(m, "PalmDOC text length does not match the logical stream"),
        other => panic!("unexpected {:?}", other.map(|_| ())),
    }
    match build_text_records(geometry(b"abc", &[], &[], &[], usize::MAX)) {
        Err(Error::Output(m)) => assert_eq!(m, "text length overflow"),
        other => panic!("unexpected {:?}", other.map(|_| ())),
    }
}

#[test]
fn indexes_of_the_text() {
    let data = build_text_records(geometry(b"<html></html>", &[b"<p/>"], &[b"p{}"], &[], 20)).ok().unwrap();
    let fragments = Fragment {
        entries: vec![FragmentEntry { insert_position: 6, file_number: 0, sequence: 0, start: 0, length: 4 }],
    };
    let selectors = vec!["P-//*[@aid='0']".to_owned()];
    let indexes = build_indexes(data, &fragments, &selectors, vec![vec![0x81]], (vec![1], vec![vec![2]], vec![]), &Guide::default()).ok().unwrap();
    assert_eq!(indexes.indexing_tbs, vec![vec![0x81]]);
    assert_eq!(indexes.ncx_main, vec![1]);
    assert!(indexes.guide_main.is_empty());
    let ranges: Vec<(u32, u32)> = indexes.fdst.entries.iter().map(|e| (e.start, e.end)).collect();
    assert_eq!(ranges, vec![(0, 17), (17, 20)]);
    assert_eq!(indexes.div.entries.len(), 1);
    assert_eq!(indexes.div.entries[0].record, 0);
    assert!(!indexes.skel_main.is_empty());
    assert_eq!(indexes.fragment_details.len(), 1);
    assert_eq!(indexes.text_length_u32, 20);
}

#[test]
fn indexes_refuse_invalid_fragments() {
    let data = build_text_records(geometry(b"abcd", &[], &[], &[], 4)).ok().unwrap();
    let fragments = Fragment {
        entries: vec![FragmentEntry { insert_position: 0, file_number: 0, sequence: 0, start: u32::MAX, length: 2 }],
    };
    assert!(matches!(build_indexes(data, &fragments, &["x".to_owned()], vec![vec![]], (vec![], vec![], vec![]), &Guide::default()), Err(Error::Output(_))));
}

#[test]
fn flow_ranges_must_fit() {
    let text = TextData {
        skel: Skel { entries: Vec::new() },
        text_records: Vec::new(),
        text_length_u32: 0,
        text_record_count: 0,
        xhtml_length_u32: u32::MAX,
        css_flow_lengths: vec![1],
        page_flow_lengths: Vec::new(),
        library_thumbnail: None,
    };
    match build_indexes(text, &Fragment { entries: Vec::new() }, &[], Vec::new(), (vec![], vec![], vec![]), &Guide::default()) {
        Err(Error::Output(m)) => assert_eq!(m, "CSS flow position overflow"),
        other => panic!("unexpected {:?}", other.map(|_| ())),
    }
}

#[test]
fn indexes_need_one_tbs_per_record() {
    let data = build_text_records(geometry(b"abcd", &[], &[], &[], 4)).ok().unwrap();
    let fragments = Fragment {
        entries: vec![FragmentEntry { insert_position: 0, file_number: 0, sequence: 0, start: 0, length: 4 }],
    };
    match build_indexes(data, &fragments, &["x".to_owned()], Vec::new(), (vec![], vec![], vec![]), &Guide::default()) {
        Err(Error::Output(m)) => assert_eq!(m, "TBS count does not match PalmDOC text record count"),
        other => panic!("unexpected {:?}", other.map(|_| ())),
    }
}

#[test]
fn guide_routes_encode_with_their_labels() {
    let guide = Guide::from_positions(vec![GuidePosition {
        kind: "text".to_owned(),
        label: "本文".to_owned(),
        sequence_number: 0,
        off: 0,
    }]);
    let (main, details, ctoc) = guide.encode_pair().ok().unwrap();
    assert!(main.starts_with(b"INDX"));
    assert_eq!(details.len(), 1);
    assert_eq!(ctoc.len(), 1);
    assert!(ctoc[0].windows("本文".len()).any(|w| w == "本文".as_bytes()));
    assert!(Guide::default().encode_pair().ok().unwrap().0.is_empty());
}

#[test]
fn records_are_laid_out_in_order() {
    let data = build_text_records(geometry(b"<html></html>", &[b"<p/>"], &[b"p{}"], &[], 20)).ok().unwrap();
    let fragments = Fragment {
        entries: vec![FragmentEntry { insert_position: 6, file_number: 0, sequence: 0, start: 0, length: 4 }],
    };
    let indexes = build_indexes(
        data,
        &fragments,
        &["P-//*[@aid='0']".to_owned()],
        vec![vec![0x81]],
        (vec![7, 7], vec![vec![8]], vec![vec![9]]),
        &Guide::default(),
    )
    .ok()
    .unwrap();
    let skel_main = indexes.skel_main.clone();
    let layout = match assemble_records(indexes, false, Vec::new(), None, vec![1], vec![2]) {
        Ok(l) => l,
        Err(e) => panic!("unexpected {e:?}"),
    };
    let records = &layout.records;
    assert_eq!(&records[0][..20], b"<html></html><p/>p{}");
    assert_eq!(records[1], vec![0, 0]);
    assert_eq!(layout.first_non_text_record, 3);
    assert_eq!(layout.fragment_record, 3);
    assert_eq!(records[layout.skel_record as usize - 1], skel_main);
    assert_eq!(layout.guide_record, u32::MAX);
    assert_eq!(records[layout.ncx_record as usize - 1], vec![7, 7]);
    assert_eq!(records[layout.ncx_record as usize], vec![8]);
    assert!(records[layout.fdst_record as usize - 1].starts_with(b"FDST"));
    assert_eq!(records[layout.resc_record as usize - 1], vec![1]);
    assert_eq!(records[layout.flis_record as usize - 1], vec![2]);
    assert!(records[layout.fcis_record as usize - 1].starts_with(b"FCIS"));
    assert_eq!(records.last().unwrap(), &vec![0xe9, 0x8e, 0x0d, 0x0a]);
    assert_eq!(layout.geometry.count, 0);
    let header = record0_palmdoc(&layout);
    assert_eq!(header.compression, 1);
    assert_eq!(header.text_length, 20);
    assert_eq!(header.record_count, 1);
    assert_eq!(header.record_size, 4096);
}

#[test]
fn record_zero_exth_records() {
    let mut metadata = KindleMetadata::default();
    metadata.title = Some("T".to_owned());
    metadata.creator = Some("A".to_owned());
    metadata.language = Some("ja".to_owned());
    let layout = KindleLayout {
        writing_mode: WritingMode::VerticalRl,
        page_progression: PageProgression::Rtl,
        direction: Direction::default(),
    };
    let geometry = BinaryResourceGeometry {
        count: 2,
        first_image_record: 5,
        last_image_record: 6,
        cover_offset: Some(0),
        thumbnail_offset: Some(1),
    };
    let exth = record0_exth(&metadata, &layout, &geometry, Some(42));
    let kinds: Vec<u32> = exth.records.iter().map(|r| r.kind).collect();
    assert_eq!(kinds, vec![100, 503, 524, 125, 116, 201, 202, 129, 525, 527]);
    assert_eq!(exth.records[3].value, vec![0, 0, 0, 2]);
    assert_eq!(exth.records[4].value, vec![0, 0, 0, 42]);
    assert_eq!(exth.records[7].value, b"kindle:embed:0001".to_vec());
    assert_eq!(exth.records[8].value, b"vertical-rl".to_vec());
    assert_eq!(exth.records[9].value, b"rtl".to_vec());
    metadata.is_fixed_layout = true;
    metadata.book_type = Some(" Comic ".to_owned());
    metadata.orientation = Some("AUTO".to_owned());
    metadata.original_resolution = Some("600x800".to_owned());
    let exth = record0_exth(&metadata, &layout, &geometry, None);
    let tail: Vec<(u32, Vec<u8>)> = exth.records.iter().skip(8).map(|r| (r.kind, r.value.clone())).collect();
    assert_eq!(
        tail,
        vec![
            (527, b"rtl".to_vec()),
            (122, b"true".to_vec()),
            (123, b"comic".to_vec()),
            (124, b"none".to_vec()),
            (126, b"600x800".to_vec()),
        ]
    );
}
