use aozoraepub3_to_azw3::cli::{CommandLine, parse_arguments, usage};
use aozoraepub3_to_azw3::Compression;

fn args(v: &[&str]) -> Vec<String> {
    v.iter().map(|a| (*a).to_owned()).collect()
}

fn fail(m: &str) -> CommandLine {
    CommandLine::Fail(m.to_owned())
}

#[test]
fn reading_command_lines() {
    assert_eq!(
        parse_arguments(&args(&["book.epub"])),
        CommandLine::Convert { input: 0, output: None, compression: Compression::PalmDoc, verbose: false }
    );
    assert_eq!(
        parse_arguments(&args(&["-c0", "-verbose", "book.epub", "-o", "-out.azw3", "-donotaddsource"])),
        CommandLine::Convert { input: 2, output: Some(4), compression: Compression::Uncompressed, verbose: true }
    );
    assert_eq!(parse_arguments(&args(&["book.epub", "--help", "-x"])), CommandLine::Help);
    assert_eq!(parse_arguments(&args(&["-V"])), CommandLine::Version);
    assert_eq!(parse_arguments(&args(&[])), fail("an EPUB input path is required"));
    assert_eq!(parse_arguments(&args(&["a.epub", "-o"])), fail("-o requires an output path"));
    assert_eq!(parse_arguments(&args(&["-c1", "-c0", "a.epub"])), fail("-c0 and -c1 cannot be combined"));
    assert_eq!(parse_arguments(&args(&["-c2"])), fail("-c2 / HUFF-CDIC compression is not supported"));
    assert_eq!(parse_arguments(&args(&["-q"])), fail("unsupported option: -q"));
    assert_eq!(parse_arguments(&args(&["a.epub", "b.epub"])), fail("only one EPUB input path is supported"));
    assert_eq!(
        parse_arguments(&args(&["a.epub", "-dont_append_source", "-c1"])),
        CommandLine::Convert { input: 0, output: None, compression: Compression::PalmDoc, verbose: false }
    );
    assert!(usage().starts_with("Usage: AozoraEpub3-to-azw3 <input.epub>"));
}
