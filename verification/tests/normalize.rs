use binate::normalize::{
    AbsolutePathNormalizer, BuildIdNormalizer, LinkerVersionNormalizer, Normalizer, NormalizerChain,
    TimestampNormalizer,
};
use std::borrow::Cow;

#[test]
fn build_id_sections_are_zeroed() {
    let out = BuildIdNormalizer.normalize(".note.gnu.build-id", &[1, 2, 3]);
    assert_eq!(&*out, &[0, 0, 0]);
    let out = BuildIdNormalizer.normalize("__DATA,__uuid", &[9]);
    assert_eq!(&*out, &[0]);
}

#[test]
fn other_sections_are_borrowed_unchanged() {
    let data = [1u8, 2, 3];
    assert!(matches!(BuildIdNormalizer.normalize(".text", &data), Cow::Borrowed(_)));
    assert!(matches!(TimestampNormalizer.normalize(".data", &data), Cow::Borrowed(_)));
    assert!(matches!(AbsolutePathNormalizer::new().normalize(".text", &data), Cow::Borrowed(_)));
    assert!(matches!(LinkerVersionNormalizer.normalize(".rodata", &data), Cow::Borrowed(_)));
}

#[test]
fn timestamps_in_comment_are_zeroed() {
    let ts: u32 = 1_600_000_000;
    let mut data = ts.to_le_bytes().to_vec();
    data.push(7);
    let out = TimestampNormalizer.normalize(".comment", &data);
    assert_eq!(&*out, &[0, 0, 0, 0, 7]);
}

#[test]
fn small_values_are_not_timestamps() {
    let out = TimestampNormalizer.normalize(".comment", &[1, 0, 0, 0]);
    assert_eq!(&*out, &[1, 0, 0, 0]);
}

#[test]
fn linker_banners_are_zeroed_to_their_end() {
    let mut data = b"x".to_vec();
    data.extend_from_slice(b"GCC: (GNU) 13.2\0");
    data.extend_from_slice(b"keep");
    let out = LinkerVersionNormalizer.normalize(".comment", &data);
    let mut want = b"x".to_vec();
    want.extend_from_slice(&[0u8; 16]);
    want.extend_from_slice(b"keep");
    assert_eq!(&*out, want.as_slice());
}

#[test]
fn absolute_paths_are_masked() {
    let out = AbsolutePathNormalizer::new().normalize(".debug_str", b"at /home/user/src/lib.rs\0");
    assert_eq!(&*out, b"at <PATH>\0");
    let out = AbsolutePathNormalizer::default().normalize(".debug_line_str", b"no path here");
    assert_eq!(&*out, b"no path here");
}

#[test]
fn names_of_the_built_in_normalizers() {
    assert_eq!(BuildIdNormalizer.name(), "build-id");
    assert_eq!(TimestampNormalizer.name(), "timestamp");
    assert_eq!(AbsolutePathNormalizer::new().name(), "absolute-path");
    assert_eq!(LinkerVersionNormalizer.name(), "linker-version");
    assert_eq!(
        NormalizerChain::default().names(),
        vec!["build-id", "timestamp", "absolute-path", "linker-version"]
    );
}

#[test]
fn empty_chain_is_identity() {
    let data = [1u8, 2, 3];
    let out = NormalizerChain::new().apply(".note.x", &data);
    assert_eq!(&*out, &data);
    assert!(NormalizerChain::new().names().is_empty());
}

#[test]
fn chain_applies_stages_in_order() {
    let chain = NormalizerChain::new().push(BuildIdNormalizer).push_boxed(Box::new(TimestampNormalizer));
    assert_eq!(chain.names(), vec!["build-id", "timestamp"]);
    assert_eq!(&*chain.apply(".note.abc", &[5, 6]), &[0, 0]);
}

#[test]
fn default_chain_masks_comment_sections() {
    let mut data = b"GCC: 1\0".to_vec();
    data.extend_from_slice(&1_700_000_000u32.to_le_bytes());
    let out = NormalizerChain::default().apply(".comment", &data);
    assert_eq!(&*out, &[0u8; 11]);
}

#[test]
fn options_select_the_chain() {
    assert!(NormalizerChain::for_options(true, &vec![]).names().is_empty());
    assert_eq!(NormalizerChain::for_options(false, &vec![]).names().len(), 4);
    let skip = vec!["timestamp".to_string(), "nonsense".to_string()];
    assert_eq!(
        NormalizerChain::for_options(false, &skip).names(),
        vec!["build-id", "absolute-path", "linker-version"]
    );
    let all = vec![
        "build-id".to_string(),
        "timestamp".to_string(),
        "absolute-path".to_string(),
        "linker-version".to_string(),
    ];
    assert!(NormalizerChain::defaults_except(&all).names().is_empty());
}

#[test]
fn default_chain_leaves_code_alone() {
    let data = b"/home/user/x GCC: \x00\x00\x00\x60".to_vec();
    let out = NormalizerChain::default().apply(".text", &data);
    assert_eq!(&*out, data.as_slice());
}

#[test]
fn empty_chain_borrows() {
    let data = [1u8, 2];
    assert!(matches!(NormalizerChain::new().apply(".text", &data), Cow::Borrowed(_)));
}

#[test]
fn masking_timestamps_twice_changes_nothing() {
    let mut data = vec![9u8, 0, 0x10, 0x5e, 0x5f, 0xff, 0xff, 0xff, 0x7f, 3];
    data.extend_from_slice(&1_650_000_000u32.to_le_bytes());
    let once = TimestampNormalizer.normalize(".comment", &data).into_owned();
    let twice = TimestampNormalizer.normalize(".comment", &once).into_owned();
    assert_eq!(once, twice);
}

#[test]
fn pushed_normalizer_is_the_last_stage() {
    let chain = NormalizerChain::new().push(TimestampNormalizer).push(LinkerVersionNormalizer);
    assert_eq!(chain.names(), vec!["timestamp", "linker-version"]);
    let boxed = NormalizerChain::new().push_boxed(Box::new(TimestampNormalizer)).push_boxed(Box::new(LinkerVersionNormalizer));
    let data = b"GCC: 9\0x".to_vec();
    assert_eq!(&*chain.apply(".comment", &data), &*boxed.apply(".comment", &data));
}
