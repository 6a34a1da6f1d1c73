use amba::disjoint_sets::DisjointSets;
use amba::ipc::{packet_size, IoErrorClass, IpcError};
use amba::layout::{EmbedderHasConverged, GraphToView, LayoutMadeProgress};
use amba::qmp::QmpCommand;
use amba::queue::ByteQueue;
use amba::read_until::{ReadExt, ReadUntil};
use amba::recipe::{ArgumentSource, EnvVarSource, Environment, FileSource, Recipe, RecipeError, SymbolicRange};
use amba::session::{S2EConfig, CUSTOM_LUA_STRING};
use amba::uptime::hour_minute_seconds;
use std::io::{Error, ErrorKind};

#[test]
fn disjoint_sets_merge_and_canonicalize() {
    let mut s = DisjointSets::new();
    assert_eq!(s.canonicalize(7), 7);
    assert!(!s.same_set(1, 2));
    assert!(s.merge(5, 3));
    assert!(!s.merge(3, 5));
    assert!(s.merge(3, 9));
    assert!(s.same_set(5, 9));
    assert_eq!(s.canonicalize(9), 3);
    assert_eq!(s.canonicalize(5), 3);
    assert!(s.merge(9, 1));
    assert_eq!(s.canonicalize(5), 1);
    assert!(!s.same_set(5, 4));
    assert_eq!(s.canonicalize(4), 4);
}

#[test]
fn disjoint_sets_long_chains() {
    let mut s = DisjointSets::default();
    for i in 1..100u64 {
        assert!(s.merge(i, i + 100));
    }
    for i in 1..99u64 {
        assert!(s.merge(i + 100, i + 1));
    }
    for i in 1..200u64 {
        let expected = if i == 100 { 100 } else { 1 };
        assert_eq!(s.canonicalize(i), expected);
    }
    assert!(!s.same_set(0, 1));
}

#[test]
fn byte_queue_fifo() {
    let mut q = ByteQueue::with_capacity(3);
    {
        let w = q.slice_to_write();
        assert_eq!(w.len(), 4);
        w[..3].copy_from_slice(b"abc");
    }
    q.commit_written(3);
    {
        let w = q.slice_to_write();
        assert_eq!(w.len(), 1);
        w[0] = b'd';
    }
    q.commit_written(1);
    let (a, b) = q.consume_slices_skipping_end_bytes(1);
    let mut out = a.to_vec();
    out.extend_from_slice(b);
    assert_eq!(out, b"abc".to_vec());
    // The queue is full again after another write wraps around.
    {
        let w = q.slice_to_write();
        assert_eq!(w.len(), 3);
        w.copy_from_slice(b"efg");
    }
    q.commit_written(3);
    let (a, b) = q.consume_slices_skipping_end_bytes(0);
    let mut out = a.to_vec();
    out.extend_from_slice(b);
    assert_eq!(out, b"defg".to_vec());
}

#[test]
fn byte_queue_grows_when_full() {
    let mut q = ByteQueue::with_capacity(2);
    {
        let w = q.slice_to_write();
        assert_eq!(w.len(), 2);
        w.copy_from_slice(b"xy");
    }
    q.commit_written(2);
    {
        let w = q.slice_to_write();
        assert_eq!(w.len(), 2);
        w.copy_from_slice(b"zw");
    }
    q.commit_written(2);
    let (a, b) = q.consume_slices_skipping_end_bytes(0);
    let mut out = a.to_vec();
    out.extend_from_slice(b);
    assert_eq!(out, b"xyzw".to_vec());
}

#[test]
fn byte_queue_skipping_everything_hands_out_nothing() {
    let mut q = ByteQueue::with_capacity(4);
    {
        let w = q.slice_to_write();
        w[..2].copy_from_slice(b"hi");
    }
    q.commit_written(2);
    let (a, b) = q.consume_slices_skipping_end_bytes(1);
    assert_eq!(a, b"h");
    assert!(b.is_empty());
    let (a, b) = q.consume_slices_skipping_end_bytes(1);
    assert!(a.is_empty() && b.is_empty());
}

#[test]
fn symbolic_range_formulas() {
    assert_eq!(SymbolicRange::Index(4).range(), [4, 5]);
    assert_eq!(SymbolicRange::Begin(4, ()).range(), [4, u64::MAX]);
    assert_eq!(SymbolicRange::Range(2, 9).range(), [2, 9]);
    assert_eq!(SymbolicRange::Range(2, 9).start(), 2);
    assert_eq!(SymbolicRange::Range(2, 9).len(), 7);
    assert_eq!(SymbolicRange::Index(2).len(), 1);
    assert_eq!(SymbolicRange::Begin(2, ()).len(), u64::MAX);
}

fn ranges(v: &[SymbolicRange]) -> Vec<[u64; 2]> {
    v.iter().map(|r| r.range()).collect()
}

#[test]
fn symbolic_range_normalize_merges_and_sorts() {
    let mut v = vec![
        SymbolicRange::Range(10, 20),
        SymbolicRange::Index(3),
        SymbolicRange::Range(15, 25),
        SymbolicRange::Index(4),
        SymbolicRange::Range(40, 41),
    ];
    SymbolicRange::normalize(&mut v);
    assert_eq!(ranges(&v), vec![[3, 5], [10, 25], [40, 41]]);
    assert!(v.iter().all(|r| matches!(r, SymbolicRange::Range(_, _))));
    // Normalizing twice changes nothing.
    let before = ranges(&v);
    SymbolicRange::normalize(&mut v);
    assert_eq!(ranges(&v), before);
}

#[test]
fn symbolic_range_normalize_touching_and_open() {
    let mut v = vec![SymbolicRange::Begin(8, ()), SymbolicRange::Range(0, 8), SymbolicRange::Range(2, 3)];
    SymbolicRange::normalize(&mut v);
    assert_eq!(ranges(&v), vec![[0, u64::MAX]]);
    let mut e: Vec<SymbolicRange> = Vec::new();
    SymbolicRange::normalize(&mut e);
    assert!(e.is_empty());
}

#[test]
fn recipe_sources_normalize() {
    let mut f = FileSource::SymbolicContent {
        seed: "abc".to_string(),
        symbolic: vec![SymbolicRange::Index(1), SymbolicRange::Index(0)],
    };
    f.normalize();
    match f {
        FileSource::SymbolicContent { seed, symbolic } => {
            assert_eq!(seed, "abc");
            assert_eq!(ranges(&symbolic), vec![[0, 2]]);
        }
        _ => panic!("variant changed"),
    }
    let mut a = ArgumentSource::Symbolic {
        seed: "x".to_string(),
        symbolic: vec![SymbolicRange::Range(5, 6), SymbolicRange::Range(0, 1)],
    };
    a.normalize();
    match a {
        ArgumentSource::Symbolic { symbolic, .. } => assert_eq!(ranges(&symbolic), vec![[0, 1], [5, 6]]),
        _ => panic!("variant changed"),
    }
    let mut c = EnvVarSource::Concrete("v".to_string());
    c.normalize();
    assert!(matches!(c, EnvVarSource::Concrete(ref s) if s == "v"));
    let env = Environment::default();
    assert!(env.inherit);
    assert!(env.remove.is_empty() && env.add.is_empty());
}

#[test]
fn embedder_convergence() {
    assert_eq!(EmbedderHasConverged::Yes.and_also(EmbedderHasConverged::Yes), EmbedderHasConverged::Yes);
    assert_eq!(EmbedderHasConverged::Yes.and_also(EmbedderHasConverged::No), EmbedderHasConverged::No);
    assert_eq!(EmbedderHasConverged::No.and_also(EmbedderHasConverged::Yes), EmbedderHasConverged::No);
    assert!(EmbedderHasConverged::Yes.converged());
    assert!(!EmbedderHasConverged::No.converged());
}

#[test]
fn layout_progress_keeps_the_most() {
    let mut p = LayoutMadeProgress::NoJustTiny;
    p.bitor_assign(LayoutMadeProgress::YesALittle);
    assert_eq!(p, LayoutMadeProgress::YesALittle);
    p.bitor_assign(LayoutMadeProgress::NoJustTiny);
    assert_eq!(p, LayoutMadeProgress::YesALittle);
    p.bitor_assign(LayoutMadeProgress::YesALot);
    assert_eq!(p, LayoutMadeProgress::YesALot);
    let mut q = LayoutMadeProgress::YesALot;
    q.bitor_assign(LayoutMadeProgress::YesALittle);
    assert_eq!(q, LayoutMadeProgress::YesALot);
}

#[test]
fn graph_to_view_numbers() {
    for n in 0..=4u8 {
        assert_eq!(GraphToView::from_raw(n).to_raw(), n);
    }
    assert_eq!(GraphToView::from_raw(2), GraphToView::State);
    assert_eq!(GraphToView::State.name(), "State Graph");
    assert_eq!(GraphToView::RawBlock.to_raw(), 0);
}

#[test]
fn qmp_command_words() {
    assert_eq!(QmpCommand::QmpCapabilities.get_command(), "qmp_capabilities");
    assert_eq!(QmpCommand::QueryStatus.get_command(), "query-status");
    assert_eq!(QmpCommand::Stop.get_command(), "stop");
    assert_eq!(QmpCommand::Cont.get_command(), "cont");
    let s = QmpCommand::Screendump { filename: "shot.ppm".to_string() };
    assert_eq!(s.get_command(), "screendump");
    assert_eq!(s.filename_argument().map(|f| f.as_str()), Some("shot.ppm"));
    assert!(QmpCommand::Stop.filename_argument().is_none());
}

#[test]
fn read_until_stops_after_end_byte() {
    let mut r: ReadUntil<Vec<u8>> = ReadUntil::new(Vec::new(), b'\n');
    assert_eq!(r.take_len(b"ab\ncd", 10), 3);
    assert_eq!(r.take_len(b"cd\n", 10), 0);
    let mut r2: ReadUntil<Vec<u8>> = ReadUntil::new(Vec::new(), b'\n');
    assert_eq!(r2.take_len(b"abcdef", 4), 4);
    assert_eq!(r2.take_len(b"ef\nz", 2), 2);
    assert_eq!(r2.take_len(b"\nz", 2), 1);
    assert_eq!(r2.take_len(b"z", 2), 0);
    let mut inner: Vec<u8> = vec![1];
    let mut r3 = inner.take_until(0);
    r3.inner_mut().push(2);
    assert_eq!(r3.take_len(&[5, 0, 7], 8), 2);
}

#[test]
fn uptime_fields() {
    assert_eq!(hour_minute_seconds(0), (0, 0, 0));
    assert_eq!(hour_minute_seconds(59), (0, 0, 59));
    assert_eq!(hour_minute_seconds(61), (0, 1, 1));
    assert_eq!(hour_minute_seconds(3 * 3600 + 25 * 60 + 7), (3, 25, 7));
    assert_eq!(hour_minute_seconds(3661), (1, 1, 1));
}

#[test]
fn ipc_packet_framing() {
    assert!(matches!(packet_size(&[], 64), Err(IpcError::EndOfFile)));
    assert!(matches!(packet_size(&[1, 0, 0], 64), Err(IpcError::PollingReceiveFragmented)));
    let mut packet = 3u64.to_le_bytes().to_vec();
    packet.extend_from_slice(&[7, 8, 9, 1]);
    assert!(matches!(packet_size(&packet, 64), Ok(11)));
    assert!(matches!(packet_size(&packet[..10], 64), Err(IpcError::PollingReceiveFragmented)));
    assert!(matches!(packet_size(&packet, 10), Err(IpcError::PollingReceiveTooLarge)));
    let big = (300u64).to_le_bytes();
    assert!(matches!(packet_size(&big, 1024), Err(IpcError::PollingReceiveFragmented)));
}

#[test]
fn ipc_io_errors() {
    assert!(matches!(IpcError::from_io(Error::from(ErrorKind::Interrupted)), IpcError::Interrupted));
    assert!(matches!(IpcError::from_io(Error::from(ErrorKind::UnexpectedEof)), IpcError::EndOfFile));
    assert!(matches!(IpcError::from_io(Error::from(ErrorKind::WouldBlock)), IpcError::Io(_)));
    assert_eq!(IpcError::classify(&Error::from(ErrorKind::WouldBlock)), IoErrorClass::WouldBlock);
    assert!(IpcError::is_retry(IoErrorClass::WouldBlock));
    assert!(IpcError::is_retry(IoErrorClass::Interrupted));
    assert!(!IpcError::is_retry(IoErrorClass::Other));
}

#[test]
fn recipe_reading_errors() {
    assert!(matches!(Recipe::text_of(&[0xff, 0xfe]), Err(RecipeError::NotUtf8(_))));
    let text = Recipe::text_of(b"{\"a\": 1}").ok().unwrap();
    assert_eq!(text, "{\"a\": 1}");
    let not_recipe: Result<Recipe, serde_json::Error> = Err(serde_json::from_str::<u8>("x").unwrap_err());
    assert!(matches!(Recipe::from_parsed(text, not_recipe), Err(RecipeError::NotSyntacticRecipe(_))));
    let not_json: Result<Recipe, serde_json::Error> = Err(serde_json::from_str::<u8>("x").unwrap_err());
    assert!(matches!(Recipe::from_parsed("{oops", not_json), Err(RecipeError::NotJson(_))));
}

#[test]
fn recipe_from_parsed_normalizes() {
    let recipe = Recipe {
        files: vec![(
            "/input".to_string(),
            FileSource::SymbolicContent {
                seed: "abcdef".to_string(),
                symbolic: vec![SymbolicRange::Range(4, 6), SymbolicRange::Index(0), SymbolicRange::Index(1)],
            },
        )],
        executable_path: "/bin/cat".to_string(),
        stdin_path: "/input".to_string(),
        arg0: None,
        arguments: vec![ArgumentSource::Concrete("-".to_string())],
        environment: Environment::default(),
    };
    assert!(recipe.ranges_ok());
    let r = Recipe::from_parsed("{}", Ok(recipe)).ok().unwrap();
    match &r.files[0].1 {
        FileSource::SymbolicContent { symbolic, .. } => {
            assert_eq!(symbolic.iter().map(|s| s.range()).collect::<Vec<_>>(), vec![[0, 2], [4, 6]])
        }
        _ => panic!("variant changed"),
    }
    assert_eq!(r.executable_path, "/bin/cat");
    let bad = Recipe {
        files: vec![],
        executable_path: String::new(),
        stdin_path: String::new(),
        arg0: None,
        arguments: vec![ArgumentSource::Symbolic { seed: "x".to_string(), symbolic: vec![SymbolicRange::Index(u64::MAX)] }],
        environment: Environment::default(),
    };
    assert!(!bad.ranges_ok());
}

#[test]
fn s2e_config_defaults() {
    let c = S2EConfig::new(std::path::PathBuf::from("/tmp/session"), b"target");
    assert_eq!(c.project_dir, std::path::PathBuf::from("/tmp/session"));
    assert_eq!(c.modules, vec![["target".to_string()]]);
    assert_eq!(c.processes, vec!["target".to_string()]);
    assert_eq!(c.target.name, "target");
    assert_eq!(c.target.names, vec!["target".to_string()]);
    assert_eq!(c.target.arch, "x86_64");
    assert_eq!(c.custom_lua_string, CUSTOM_LUA_STRING);
    assert_eq!(CUSTOM_LUA_STRING, "\nadd_plugin(\"AmbaPlugin\")\n");
    assert!(c.use_cupa && c.dynamically_linked && c.use_test_case_generator);
    assert!(!c.use_seeds && !c.enable_cfi && !c.enable_tickler && !c.has_guestfs && !c.enable_pov_generation);
}

#[test]
fn concrete_inputs_split_by_counts() {
    let names = vec!["argv1".to_string(), "stdin".to_string(), "empty".to_string()];
    let inputs = amba::concrete_inputs::split_concrete_inputs(&names, &[2, 3, 0], b"abXYZ");
    assert_eq!(
        inputs,
        vec![
            ("argv1".to_string(), b"ab".to_vec()),
            ("stdin".to_string(), b"XYZ".to_vec()),
            ("empty".to_string(), Vec::new()),
        ]
    );
    assert_eq!(amba::concrete_inputs::split_concrete_inputs(&[], &[], b""), Vec::new());
}

#[test]
fn s2e_config_escapes_the_file_name() {
    let c = S2EConfig::new(std::path::PathBuf::from("/tmp/s"), b"a b\n\xff");
    assert_eq!(c.target.name, "a b\\n\\xff");
    assert_eq!(c.processes, vec!["a b\\n\\xff".to_string()]);
}

#[test]
fn escaped_string_is_ascii() {
    let buf: Vec<u8> = (0..=255u8).chain(0..=255u8).collect();
    let escaped = amba::session::os_str_to_escaped_ascii(&buf);
    assert!(escaped.is_ascii());
    // Every byte escapes as the standard library escapes it.
    let expected: String = buf.escape_ascii().to_string();
    assert_eq!(escaped, expected);
}

#[test]
fn escapes_quotes_backslashes_and_controls() {
    let escaped = amba::session::os_str_to_escaped_ascii(b"\t\r\n\\'\"~ \x7f\x00\xab");
    assert_eq!(escaped, "\\t\\r\\n\\\\\\'\\\"~ \\x7f\\x00\\xab");
}

#[test]
fn disjoint_sets_merge_unites_exactly_two_groups() {
    let mut s = DisjointSets::new();
    assert!(s.merge(1, 2));
    assert!(s.merge(3, 4));
    assert!(s.merge(5, 6));
    assert!(s.merge(2, 4));
    for x in [1u64, 2, 3, 4] {
        for y in [1u64, 2, 3, 4] {
            assert!(s.same_set(x, y));
        }
        assert!(!s.same_set(x, 5));
        assert!(!s.same_set(x, 6));
    }
    assert!(s.same_set(5, 6));
    assert_eq!(s.canonicalize(4), 1);
    assert_eq!(s.canonicalize(6), 5);
}

#[test]
fn byte_queue_chunks_come_out_whole() {
    let data = b"the quick brown fox jumps";
    for chunk in 1..7usize {
        let mut q = ByteQueue::with_capacity(2);
        let mut at = 0;
        while at < data.len() {
            let w = q.slice_to_write();
            let n = chunk.min(w.len()).min(data.len() - at);
            w[..n].copy_from_slice(&data[at..at + n]);
            q.commit_written(n);
            at += n;
        }
        let (a, b) = q.consume_slices_skipping_end_bytes(0);
        let mut out = a.to_vec();
        out.extend_from_slice(b);
        assert_eq!(out, data.to_vec());
    }
}
