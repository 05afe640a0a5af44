use hldup::cli::{AppArgs, PromptUserMode};
use hldup::cli::is_yes_response;
use hldup::dupchecks::{
    compare_chunks, compare_metadata, check_link_policy, decide_after_prompt, ChunkVerdict,
    FileKind, FileMeta, LinkDecision, MetaVerdict, ShouldNotRelinkReason,
};
use hldup::hashcache::{
    calculate_skiplen, ilog2_u64, FileHashes, FingerprintBuilder, HashCache, SAMPLE_SIZE,
};
use hldup::orchestrator::{bytes_lt, duplicate_pairs};
use hldup::replacer::backup_path_bytes;
use hldup::utils::read_exact_or_end;

fn meta(kind: FileKind, size: u64, ino: u64, dev: u64) -> FileMeta {
    FileMeta { kind, size, ino, dev }
}

#[test]
fn fingerprint_same_content_twice_is_equal() {
    let content: Vec<u8> = (0u8..=255).cycle().take(5000).collect();
    let mut b1 = FingerprintBuilder::new();
    b1.push_chunk(&content, content.len());
    let f1 = b1.finish(5000);
    let mut b2 = FingerprintBuilder::new();
    b2.push_chunk(&content, content.len());
    let f2 = b2.finish(5000);
    assert_eq!(f1, f2);
}

#[test]
fn fingerprint_chunking_does_not_matter() {
    let content: Vec<u8> = (0u8..=255).cycle().take(4096).collect();
    let mut whole = FingerprintBuilder::new();
    whole.push_chunk(&content, content.len());
    let half: Vec<u8> = content[..2048].to_vec();
    let rest: Vec<u8> = content[2048..].to_vec();
    let mut split = FingerprintBuilder::new();
    split.push_chunk(&half, half.len());
    split.push_chunk(&rest, rest.len());
    assert_eq!(whole.finish(4096), split.finish(4096));
}

#[test]
fn fingerprint_differs_for_different_content() {
    let a = vec![0u8; 100];
    let b = vec![1u8; 100];
    let mut ba = FingerprintBuilder::new();
    ba.push_chunk(&a, a.len());
    let mut bb = FingerprintBuilder::new();
    bb.push_chunk(&b, b.len());
    assert_ne!(ba.finish(100), bb.finish(100));
}

#[test]
fn fingerprint_differs_for_different_size() {
    let a = vec![7u8; 64];
    let mut ba = FingerprintBuilder::new();
    ba.push_chunk(&a, a.len());
    let mut bb = FingerprintBuilder::new();
    bb.push_chunk(&a, a.len());
    assert_ne!(ba.finish(64), bb.finish(65));
}

#[test]
fn fingerprint_push_chunk_takes_prefix() {
    let chunk = vec![9u8, 9, 9, 0, 0];
    let mut ba = FingerprintBuilder::new();
    ba.push_chunk(&chunk, 3);
    let three = vec![9u8, 9, 9];
    let mut bb = FingerprintBuilder::new();
    bb.push_chunk(&three, 3);
    assert_eq!(ba.finish(3), bb.finish(3));
}

#[test]
fn ilog2_values() {
    assert_eq!(ilog2_u64(1), 0);
    assert_eq!(ilog2_u64(2), 1);
    assert_eq!(ilog2_u64(3), 1);
    assert_eq!(ilog2_u64(1024), 10);
    assert_eq!(ilog2_u64(1 << 20), 20);
    assert_eq!(ilog2_u64(u64::MAX), 63);
}

#[test]
fn skiplen_small_file_reads_sequentially() {
    assert_eq!(calculate_skiplen(1, SAMPLE_SIZE), 0);
    assert_eq!(calculate_skiplen(2 * SAMPLE_SIZE as u64, SAMPLE_SIZE), 0);
}

#[test]
fn skiplen_one_mebibyte() {
    assert_eq!(calculate_skiplen(1 << 20, SAMPLE_SIZE), 253952);
}

#[test]
fn skiplen_can_be_negative_for_smallish_files() {
    assert_eq!(calculate_skiplen(20000, SAMPLE_SIZE), 5000 - 8192);
    assert_eq!(calculate_skiplen(16385, SAMPLE_SIZE), 4096 - 8192);
}

#[test]
fn skiplen_large_file_caps_samples() {
    assert_eq!(calculate_skiplen(1 << 34, SAMPLE_SIZE), (1i64 << 32) - 8192);
}

#[test]
fn cache_insert_and_duplicates() {
    let mut cache = HashCache::new();
    let fp = FileHashes::new(42, 100);
    cache.insert(b"/a".to_vec(), fp);
    cache.insert(b"/b".to_vec(), fp);
    let dups = cache.duplicates();
    assert_eq!(dups.len(), 1);
    let mut group = dups[0].clone();
    group.sort();
    assert_eq!(group, vec![b"/a".to_vec(), b"/b".to_vec()]);
}

#[test]
fn cache_singletons_are_not_duplicates() {
    let mut cache = HashCache::new();
    cache.insert(b"/a".to_vec(), FileHashes::new(1, 10));
    cache.insert(b"/b".to_vec(), FileHashes::new(2, 10));
    assert!(cache.duplicates().is_empty());
}

#[test]
fn cache_insert_same_path_twice_is_a_no_op() {
    let mut cache = HashCache::new();
    let fp = FileHashes::new(5, 5);
    cache.insert(b"/a".to_vec(), fp);
    cache.insert(b"/a".to_vec(), fp);
    assert!(cache.duplicates().is_empty());
    let paths = cache.paths_for(fp).unwrap();
    assert_eq!(paths, vec![b"/a".to_vec()]);
}

#[test]
fn cache_different_sizes_never_group() {
    let mut cache = HashCache::new();
    cache.insert(b"/a".to_vec(), FileHashes::new(7, 10));
    cache.insert(b"/b".to_vec(), FileHashes::new(7, 20));
    assert!(cache.duplicates().is_empty());
}

fn sorted_paths_for(cache: &HashCache, fp: FileHashes) -> Option<Vec<Vec<u8>>> {
    cache.paths_for(fp).map(|mut v| {
        v.sort();
        v
    })
}

#[test]
fn join_is_commutative() {
    let fp1 = FileHashes::new(1, 10);
    let fp2 = FileHashes::new(2, 20);
    let make_a = || {
        let mut a = HashCache::new();
        a.insert(b"/x".to_vec(), fp1);
        a.insert(b"/y".to_vec(), fp2);
        a
    };
    let make_b = || {
        let mut b = HashCache::new();
        b.insert(b"/z".to_vec(), fp1);
        b
    };
    let ab = make_a().join(make_b());
    let ba = make_b().join(make_a());
    for fp in [fp1, fp2] {
        assert_eq!(sorted_paths_for(&ab, fp), sorted_paths_for(&ba, fp));
    }
    assert_eq!(sorted_paths_for(&ab, fp1).unwrap(), vec![b"/x".to_vec(), b"/z".to_vec()]);
}

#[test]
fn join_is_associative() {
    let fp = FileHashes::new(9, 9);
    let single = |p: &[u8]| {
        let mut c = HashCache::new();
        c.insert(p.to_vec(), fp);
        c
    };
    let left = single(b"/a").join(single(b"/b")).join(single(b"/c"));
    let right = single(b"/a").join(single(b"/b").join(single(b"/c")));
    assert_eq!(sorted_paths_for(&left, fp), sorted_paths_for(&right, fp));
    assert_eq!(
        sorted_paths_for(&left, fp).unwrap(),
        vec![b"/a".to_vec(), b"/b".to_vec(), b"/c".to_vec()]
    );
}

#[test]
fn metadata_same_file_compared_with_itself_is_same_inode() {
    let m = meta(FileKind::Regular, 1234, 77, 1);
    assert_eq!(compare_metadata(&m, &m), MetaVerdict::SameInode);
}

#[test]
fn metadata_size_difference_decides_without_content() {
    let l = meta(FileKind::Regular, 10, 1, 1);
    let r = meta(FileKind::Regular, 11, 2, 1);
    assert_eq!(compare_metadata(&l, &r), MetaVerdict::Different);
}

#[test]
fn metadata_kind_difference_decides_without_content() {
    let l = meta(FileKind::Regular, 10, 1, 1);
    let r = meta(FileKind::Symlink, 10, 2, 1);
    assert_eq!(compare_metadata(&l, &r), MetaVerdict::Different);
}

#[test]
fn metadata_equal_sizes_need_content() {
    let l = meta(FileKind::Regular, 10, 1, 1);
    let r = meta(FileKind::Regular, 10, 2, 1);
    assert_eq!(compare_metadata(&l, &r), MetaVerdict::NeedContent);
}

#[test]
fn chunks_equal_full_buffers_continue() {
    let l = vec![1u8, 2, 3, 4];
    let r = vec![1u8, 2, 3, 4];
    assert_eq!(compare_chunks(&l, 4, &r, 4), ChunkVerdict::Continue);
}

#[test]
fn chunks_equal_partial_buffers_are_identical() {
    let l = vec![1u8, 2, 3, 0];
    let r = vec![1u8, 2, 3, 9];
    assert_eq!(compare_chunks(&l, 3, &r, 3), ChunkVerdict::Identical);
}

#[test]
fn chunks_mismatch_on_different_bytes() {
    let l = vec![1u8, 2, 3, 4];
    let r = vec![1u8, 2, 9, 4];
    assert_eq!(compare_chunks(&l, 4, &r, 4), ChunkVerdict::Mismatch);
}

#[test]
fn chunks_mismatch_on_different_counts() {
    let l = vec![1u8, 2, 3, 4];
    let r = vec![1u8, 2, 3, 4];
    assert_eq!(compare_chunks(&l, 4, &r, 3), ChunkVerdict::Mismatch);
}

#[test]
fn policy_already_linked_wins_over_every_mode() {
    let l = meta(FileKind::Regular, 10, 5, 1);
    let r = meta(FileKind::Regular, 10, 5, 2);
    for mode in [PromptUserMode::DefaultYes, PromptUserMode::DefaultNo, PromptUserMode::Prompt] {
        assert_eq!(
            check_link_policy(&l, &r, mode),
            LinkDecision::NotEligible(ShouldNotRelinkReason::AlreadyLinked)
        );
    }
}

#[test]
fn policy_different_filesystems_reports_device_ids() {
    let l = meta(FileKind::Regular, 10, 5, 11);
    let r = meta(FileKind::Regular, 10, 6, 22);
    for mode in [PromptUserMode::DefaultYes, PromptUserMode::DefaultNo, PromptUserMode::Prompt] {
        assert_eq!(
            check_link_policy(&l, &r, mode),
            LinkDecision::NotEligible(ShouldNotRelinkReason::DifferentFilesystems(11, 22))
        );
    }
}

#[test]
fn policy_mode_decides_when_linkable() {
    let l = meta(FileKind::Regular, 10, 5, 1);
    let r = meta(FileKind::Regular, 10, 6, 1);
    assert_eq!(check_link_policy(&l, &r, PromptUserMode::DefaultYes), LinkDecision::Eligible);
    assert_eq!(
        check_link_policy(&l, &r, PromptUserMode::DefaultNo),
        LinkDecision::NotEligible(ShouldNotRelinkReason::UserDeclined)
    );
    assert_eq!(check_link_policy(&l, &r, PromptUserMode::Prompt), LinkDecision::NeedsPrompt);
}

#[test]
fn prompt_answer_settles_decision() {
    assert_eq!(decide_after_prompt(true), Ok(()));
    assert_eq!(decide_after_prompt(false), Err(ShouldNotRelinkReason::UserDeclined));
}

#[test]
fn reason_messages() {
    assert_eq!(
        ShouldNotRelinkReason::AlreadyLinked.msg(),
        "The files are already hard-linked to each other."
    );
    assert_eq!(
        ShouldNotRelinkReason::DifferentFilesystems(1, 2).msg(),
        "The files are on different filesystems."
    );
    assert_eq!(ShouldNotRelinkReason::UserDeclined.msg(), "The user said no.");
}

#[test]
fn as_default_matches_mode() {
    assert_eq!(PromptUserMode::DefaultYes.as_default(), Some(true));
    assert_eq!(PromptUserMode::DefaultNo.as_default(), Some(false));
    assert_eq!(PromptUserMode::Prompt.as_default(), None);
    assert_eq!(PromptUserMode::default(), PromptUserMode::Prompt);
}

#[test]
fn parse_sorts_flags_and_dirs() {
    let raw = vec![
        b"/data".to_vec(),
        b"--default-yes".to_vec(),
        b"/more".to_vec(),
    ];
    let args = AppArgs::parse(&raw);
    assert_eq!(args.prompt_mode, PromptUserMode::DefaultYes);
    assert_eq!(args.dirs, vec![b"/data".to_vec(), b"/more".to_vec()]);
}

#[test]
fn parse_last_flag_wins() {
    let raw = vec![
        b"--default-yes".to_vec(),
        b"--default-no".to_vec(),
        b"--prompt".to_vec(),
        b"--default-no".to_vec(),
    ];
    let args = AppArgs::parse(&raw);
    assert_eq!(args.prompt_mode, PromptUserMode::DefaultNo);
    assert!(args.dirs.is_empty());
}

#[test]
fn parse_no_arguments_defaults_to_prompting() {
    let args = AppArgs::parse(&Vec::new());
    assert_eq!(args.prompt_mode, PromptUserMode::Prompt);
    assert!(args.dirs.is_empty());
}

#[test]
fn yes_responses_match_the_trimmed_line() {
    for yes in [&b"y"[..], b"Y", b"yes", b"Yes", b"YES", b" y", b"y ", b"yes\n", b"\tYES \r\n"] {
        assert!(is_yes_response(&yes.to_vec()), "{:?}", yes);
    }
    for no in [&b""[..], b" ", b"n", b"no", b"YEs", b"yES", b"oui", b"y es", b"yy"] {
        assert!(!is_yes_response(&no.to_vec()), "{:?}", no);
    }
}

#[test]
fn read_exact_or_end_fills_buffer() {
    let data: Vec<u8> = (0u8..100).collect();
    let mut reader = std::io::Cursor::new(data);
    let mut buffer = vec![0u8; 64];
    let n = read_exact_or_end(&mut reader, &mut buffer).unwrap();
    assert_eq!(n, 64);
    assert_eq!(buffer[..], (0u8..64).collect::<Vec<u8>>()[..]);
    let n = read_exact_or_end(&mut reader, &mut buffer).unwrap();
    assert_eq!(n, 36);
    assert_eq!(buffer[..36], (64u8..100).collect::<Vec<u8>>()[..]);
    let n = read_exact_or_end(&mut reader, &mut buffer).unwrap();
    assert_eq!(n, 0);
}

#[test]
fn backup_path_appends_to_extension() {
    assert_eq!(backup_path_bytes(&b"/a/b.txt".to_vec()), b"/a/b.txt.bak".to_vec());
    assert_eq!(backup_path_bytes(&b"/a/b.tar.gz".to_vec()), b"/a/b.tar.gz.bak".to_vec());
    assert_eq!(backup_path_bytes(&b"b.".to_vec()), b"b..bak".to_vec());
}

#[test]
fn backup_path_without_extension_gains_empty_one() {
    assert_eq!(backup_path_bytes(&b"/a/b".to_vec()), b"/a/b..bak".to_vec());
    assert_eq!(backup_path_bytes(&b"/a/.hidden".to_vec()), b"/a/.hidden..bak".to_vec());
    assert_eq!(backup_path_bytes(&b"/a/..b".to_vec()), b"/a/..b.bak".to_vec());
}

#[test]
fn bytes_lt_is_lexicographic() {
    assert!(bytes_lt(&b"a".to_vec(), &b"b".to_vec()));
    assert!(!bytes_lt(&b"b".to_vec(), &b"a".to_vec()));
    assert!(bytes_lt(&b"a".to_vec(), &b"ab".to_vec()));
    assert!(!bytes_lt(&b"ab".to_vec(), &b"a".to_vec()));
    assert!(!bytes_lt(&b"a".to_vec(), &b"a".to_vec()));
    assert!(bytes_lt(&b"".to_vec(), &b"a".to_vec()));
}

#[test]
fn duplicate_pairs_enumerates_each_unordered_pair_once() {
    let group = vec![b"/b".to_vec(), b"/a".to_vec(), b"/c".to_vec()];
    let mut pairs = duplicate_pairs(&group);
    pairs.sort();
    assert_eq!(
        pairs,
        vec![
            (b"/a".to_vec(), b"/b".to_vec()),
            (b"/a".to_vec(), b"/c".to_vec()),
            (b"/b".to_vec(), b"/c".to_vec()),
        ]
    );
}

#[test]
fn duplicate_pairs_of_two_paths() {
    let group = vec![b"/z".to_vec(), b"/y".to_vec()];
    let pairs = duplicate_pairs(&group);
    assert_eq!(pairs, vec![(b"/y".to_vec(), b"/z".to_vec())]);
}

#[test]
fn duplicates_returns_one_group_per_fingerprint() {
    let mut cache = HashCache::new();
    let k1 = FileHashes::new(1, 10);
    let k2 = FileHashes::new(2, 10);
    for k in [k1, k2] {
        cache.insert(b"/a".to_vec(), k);
        cache.insert(b"/b".to_vec(), k);
    }
    let dups = cache.duplicates();
    assert_eq!(dups.len(), 2);
    for mut g in dups {
        g.sort();
        assert_eq!(g, vec![b"/a".to_vec(), b"/b".to_vec()]);
    }
}

#[test]
fn duplicates_is_stable_across_calls() {
    let mut cache = HashCache::new();
    let fp = FileHashes::new(3, 30);
    cache.insert(b"/a".to_vec(), fp);
    cache.insert(b"/b".to_vec(), fp);
    assert_eq!(cache.duplicates(), cache.duplicates());
}
