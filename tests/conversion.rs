use fcos_ignition_coder::codec::{
    decode, decode_placeholder, encode_inline, encode_placeholder, extension_for, inline_from_encoded, Decoded,
};
use fcos_ignition_coder::defaults::{is_default, remove_default_values};
use fcos_ignition_coder::embed::{assemble, placeholder_references};
use fcos_ignition_coder::error::ConvertError;
use fcos_ignition_coder::extract::{disassemble, ContentFile};
use fcos_ignition_coder::location::resolve;
use fcos_ignition_coder::target::{directory_step, file_step, Action, TargetStep};
use fcos_ignition_coder::text::decimal;
use fcos_ignition_coder::tree::Node;

fn s(text: &str) -> Node {
    Node::Str(text.to_string())
}

fn obj(members: Vec<(&str, Node)>) -> Node {
    Node::Object(members.into_iter().map(|(k, v)| (k.to_string(), v)).collect())
}

fn arr(items: Vec<Node>) -> Node {
    Node::Array(items)
}

fn num(text: &str) -> Node {
    Node::Number(text.to_string())
}

fn member<'a>(node: &'a Node, key: &str) -> &'a Node {
    match node {
        Node::Object(ms) => &ms.iter().find(|(k, _)| k == key).expect("member").1,
        _ => panic!("not an object"),
    }
}

fn item(node: &Node, i: usize) -> &Node {
    match node {
        Node::Array(items) => &items[i],
        _ => panic!("not an array"),
    }
}

fn text(node: &Node) -> &str {
    match node {
        Node::Str(t) => t.as_str(),
        _ => panic!("not a string"),
    }
}

fn same(a: &Node, b: &Node) -> bool {
    match (a, b) {
        (Node::Null, Node::Null) => true,
        (Node::Bool(x), Node::Bool(y)) => x == y,
        (Node::Number(x), Node::Number(y)) => x == y,
        (Node::Str(x), Node::Str(y)) => x == y,
        (Node::Array(x), Node::Array(y)) => x.len() == y.len() && x.iter().zip(y).all(|(p, q)| same(p, q)),
        (Node::Object(x), Node::Object(y)) => {
            x.len() == y.len() && x.iter().zip(y).all(|((k, p), (l, q))| k == l && same(p, q))
        }
        _ => false,
    }
}

fn file_doc(path: &str, source: &str) -> Node {
    obj(vec![
        ("ignition", obj(vec![("version", s("3.4.0"))])),
        (
            "storage",
            obj(vec![(
                "files",
                arr(vec![obj(vec![
                    ("contents", obj(vec![("source", s(source))])),
                    ("mode", num("420")),
                    ("path", s(path)),
                ])]),
            )]),
        ),
    ])
}

fn append_doc(path: &str, sources: &[&str]) -> Node {
    obj(vec![(
        "storage",
        obj(vec![(
            "files",
            arr(vec![obj(vec![
                ("append", arr(sources.iter().map(|x| obj(vec![("source", s(x))])).collect())),
                ("mode", num("420")),
                ("path", s(path)),
            ])]),
        )]),
    )])
}

fn contents_of(files: &[ContentFile]) -> Vec<ContentFile> {
    files.iter().map(|f| ContentFile { location: f.location.clone(), bytes: f.bytes.clone() }).collect()
}

fn source_at(doc: &Node) -> &str {
    text(member(member(item(member(member(doc, "storage"), "files"), 0), "contents"), "source"))
}

#[test]
fn scenario_a_disassembles_to_one_file() {
    let doc = obj(vec![(
        "storage",
        obj(vec![(
            "files",
            arr(vec![obj(vec![
                ("path", s("/etc/test")),
                ("contents", obj(vec![("source", s("data:;base64,dGVzdCBjb250ZW50"))])),
            ])]),
        )]),
    )]);
    let (out, files) = disassemble(doc).unwrap();
    assert_eq!(files.len(), 1);
    assert_eq!(files[0].location, "etc/test");
    assert_eq!(files[0].bytes, b"test content".to_vec());
    assert_eq!(source_at(&out), "data:;base64-placeholder,etc/test");
}

#[test]
fn scenario_a_assembles_back() {
    let doc = file_doc("/etc/test", "data:;base64-placeholder,etc/test");
    let contents = vec![ContentFile { location: "etc/test".to_string(), bytes: b"test content".to_vec() }];
    let out = assemble(doc, &contents).unwrap();
    assert_eq!(source_at(&out), "data:;base64,dGVzdCBjb250ZW50");
}

#[test]
fn test_roundtrip() {
    let doc = file_doc("/etc/test", "data:text/plain;charset=US-ASCII;base64,dGVzdCBjb250ZW50");
    let original = file_doc("/etc/test", "data:text/plain;charset=US-ASCII;base64,dGVzdCBjb250ZW50");
    let (out, files) = disassemble(doc).unwrap();
    assert_eq!(source_at(&out), "data:text/plain;charset=US-ASCII;base64-placeholder,etc/test");
    let back = assemble(out, &contents_of(&files)).unwrap();
    assert!(same(&back, &original));
}

#[test]
fn test_array_sources() {
    let doc = obj(vec![(
        "storage",
        obj(vec![(
            "files",
            arr(vec![
                obj(vec![
                    ("contents", obj(vec![("source", s("data:text/plain;charset=utf-8;base64,U2luZ2xlIGZpbGU="))])),
                    ("mode", num("420")),
                    ("path", s("/etc/test-single")),
                ]),
                obj(vec![
                    (
                        "append",
                        arr(vec![
                            obj(vec![("source", s("data:text/plain;charset=utf-8;base64,Rmlyc3QgZW50cnk="))]),
                            obj(vec![("source", s("data:text/plain;charset=utf-8;base64,U2Vjb25kIGVudHJ5"))]),
                        ]),
                    ),
                    ("mode", num("644")),
                    ("path", s("/etc/test-array")),
                ]),
            ]),
        )]),
    )]);
    let (_, files) = disassemble(doc).unwrap();
    let found: Vec<(&str, &[u8])> = files.iter().map(|f| (f.location.as_str(), f.bytes.as_slice())).collect();
    assert_eq!(
        found,
        vec![
            ("etc/test-single", &b"Single file"[..]),
            ("etc/test-array/0", &b"First entry"[..]),
            ("etc/test-array/1", &b"Second entry"[..]),
        ]
    );
}

#[test]
fn test_array_sources_roundtrip() {
    let sources = [
        "data:text/plain;charset=utf-8;base64,SGVsbG8gV29ybGQ=",
        "data:text/plain;charset=utf-8;base64,R29vZGJ5ZSBXb3JsZA==",
    ];
    let (out, files) = disassemble(append_doc("/etc/motd", &sources)).unwrap();
    assert_eq!(files.len(), 2);
    assert_eq!(files[0].location, "etc/motd/0");
    assert_eq!(files[1].location, "etc/motd/1");
    assert_eq!(files[0].bytes, b"Hello World".to_vec());
    assert_eq!(files[1].bytes, b"Goodbye World".to_vec());
    let back = assemble(out, &contents_of(&files)).unwrap();
    let append = member(item(member(member(&back, "storage"), "files"), 0), "append");
    assert_eq!(text(member(item(append, 0), "source")), sources[0]);
    assert_eq!(text(member(item(append, 1), "source")), sources[1]);
    assert!(same(&back, &append_doc("/etc/motd", &sources)));
}

#[test]
fn array_fan_out_indexes_every_element() {
    let sources = ["data:,a", "data:,b", "data:,c"];
    let (out, files) = disassemble(append_doc("/var/log/x", &sources)).unwrap();
    let locations: Vec<&str> = files.iter().map(|f| f.location.as_str()).collect();
    assert_eq!(locations, vec!["var/log/x/0", "var/log/x/1", "var/log/x/2"]);
    let back = assemble(out, &contents_of(&files)).unwrap();
    let append = member(item(member(member(&back, "storage"), "files"), 0), "append");
    assert_eq!(text(member(item(append, 2), "source")), "data:;base64,Yw==");
}

#[test]
fn empty_path_names_are_synthesized_and_distinct() {
    let doc = obj(vec![(
        "ignition",
        obj(vec![(
            "config",
            obj(vec![(
                "merge",
                arr(vec![
                    obj(vec![("source", s("data:application/json;base64,e30="))]),
                    obj(vec![("source", s("data:text/yaml;base64,YTogMQ=="))]),
                    obj(vec![("source", s("data:image/png;base64,AA=="))]),
                ]),
            )]),
        )]),
    )]);
    let (out, files) = disassemble(doc).unwrap();
    let locations: Vec<&str> = files.iter().map(|f| f.location.as_str()).collect();
    assert_eq!(locations, vec!["extracted_file_0.json", "extracted_file_1.yaml", "extracted_file_2.data"]);
    let merge = member(member(member(&out, "ignition"), "config"), "merge");
    assert_eq!(text(member(item(merge, 0), "source")), "data:application/json;base64-placeholder,extracted_file_0.json");
}

#[test]
fn parent_segment_in_path_is_rejected() {
    let doc = file_doc("/etc/../../outside", "data:;base64,dGVzdA==");
    match disassemble(doc) {
        Err(ConvertError::PathEscape(p)) => assert_eq!(p, "/etc/../../outside"),
        _ => panic!("expected a path escape"),
    }
    let doc = file_doc("//etc/x", "data:;base64,dGVzdA==");
    assert!(matches!(disassemble(doc), Err(ConvertError::PathEscape(_))));
}

#[test]
fn placeholder_with_parent_segment_is_rejected() {
    let doc = file_doc("/etc/x", "data:;base64-placeholder,../secret");
    assert!(matches!(assemble(doc, &Vec::new()), Err(ConvertError::PathEscape(_))));
    assert!(matches!(resolve(&"a/../b".to_string()), Err(ConvertError::PathEscape(_))));
    assert_eq!(resolve(&"/etc/a..b".to_string()).ok().unwrap(), "etc/a..b");
}

#[test]
fn disassembling_twice_extracts_nothing() {
    let (out, files) = disassemble(file_doc("/etc/test", "data:;base64,dGVzdCBjb250ZW50")).unwrap();
    assert_eq!(files.len(), 1);
    let (again, more) = disassemble(out).unwrap();
    assert!(more.is_empty());
    assert_eq!(source_at(&again), "data:;base64-placeholder,etc/test");
}

#[test]
fn malformed_inline_content_is_a_decode_error() {
    let doc = file_doc("/etc/bad", "data:;base64,@@@");
    match disassemble(doc) {
        Err(ConvertError::Decode(p)) => assert_eq!(p, "/etc/bad"),
        _ => panic!("expected a decode error"),
    }
    assert!(matches!(disassemble(file_doc("/etc/bad", "data:text/plain")), Err(ConvertError::Decode(_))));
}

#[test]
fn remote_sources_are_left_alone() {
    let (out, files) = disassemble(file_doc("/etc/r", "https://example.com/file")).unwrap();
    assert!(files.is_empty());
    assert_eq!(source_at(&out), "https://example.com/file");
}

#[test]
fn missing_content_is_reported() {
    let doc = file_doc("/etc/test", "data:;base64-placeholder,etc/test");
    match assemble(doc, &Vec::new()) {
        Err(ConvertError::MissingContent(l)) => assert_eq!(l, "etc/test"),
        _ => panic!("expected missing content"),
    }
}

#[test]
fn placeholder_references_are_listed_in_order() {
    let doc = append_doc("/x", &["data:;base64-placeholder,x/0", "data:;base64,AA==", "data:a/b;base64-placeholder,/x/1"]);
    assert_eq!(placeholder_references(&doc), vec!["x/0".to_string(), "/x/1".to_string()]);
}

#[test]
fn codec_encodes_and_decodes() {
    assert_eq!(encode_inline(b"test content", ""), "data:;base64,dGVzdCBjb250ZW50");
    assert_eq!(encode_inline(b"", "text/plain"), "data:text/plain;base64,");
    assert_eq!(inline_from_encoded("text/css", "YQ=="), "data:text/css;base64,YQ==");
    assert_eq!(encode_placeholder("text/plain", "etc/a"), "data:text/plain;base64-placeholder,etc/a");
    match decode("data:text/plain;charset=utf-8;base64,aGk=") {
        Decoded::Inline { bytes, media_type } => {
            assert_eq!(bytes, b"hi".to_vec());
            assert_eq!(media_type, "text/plain;charset=utf-8");
        }
        _ => panic!("expected inline content"),
    }
    match decode("data:,hello%20world") {
        Decoded::Inline { bytes, media_type } => {
            assert_eq!(bytes, b"hello world".to_vec());
            assert_eq!(media_type, "");
        }
        _ => panic!("expected inline content"),
    }
    assert!(matches!(decode("data:text/plain;base64-placeholder,etc/a"), Decoded::NotInline));
    assert!(matches!(decode("http://x"), Decoded::NotInline));
    assert_eq!(
        decode_placeholder("data:text/plain;base64-placeholder,etc/a"),
        Some(("text/plain".to_string(), "etc/a".to_string()))
    );
    assert_eq!(decode_placeholder("data:text/plain;base64,AA=="), None);
}

#[test]
fn extensions_follow_media_types() {
    let cases = [
        ("text/plain", "data"),
        ("application/json", "json"),
        ("application/yaml", "yaml"),
        ("text/yaml", "yaml"),
        ("application/x-yaml", "yaml"),
        ("text/x-yaml", "yaml"),
        ("application/xml", "xml"),
        ("text/xml", "xml"),
        ("text/html", "html"),
        ("application/javascript", "js"),
        ("text/css", "css"),
        ("image/png", "data"),
        ("", "data"),
    ];
    for (media, ext) in cases {
        assert_eq!(extension_for(&media.to_string()), ext);
    }
}

#[test]
fn decimal_writes_numbers() {
    assert_eq!(decimal(0), "0");
    assert_eq!(decimal(7), "7");
    assert_eq!(decimal(10), "10");
    assert_eq!(decimal(4096), "4096");
    assert_eq!(decimal(usize::MAX), usize::MAX.to_string());
}

#[test]
fn default_values_are_removed() {
    let mut doc = obj(vec![
        ("a", Node::Null),
        ("b", Node::Bool(false)),
        ("c", num("0")),
        ("d", num("0.0")),
        ("e", s("")),
        ("f", arr(vec![num("1"), num("0"), arr(vec![])])),
        ("g", obj(vec![("h", Node::Bool(true)), ("i", obj(vec![("j", Node::Null)]))])),
    ]);
    assert!(is_default(&Node::Null));
    assert!(!is_default(&num("1")));
    remove_default_values(&mut doc);
    let expected = obj(vec![
        ("d", num("0.0")),
        ("f", arr(vec![num("1")])),
        ("g", obj(vec![("h", Node::Bool(true)), ("i", obj(vec![]))])),
    ]);
    assert!(same(&doc, &expected));
}

#[test]
fn target_steps_follow_the_action() {
    assert_eq!(directory_step(Action::New, false), TargetStep::Create);
    assert_eq!(directory_step(Action::New, true), TargetStep::Refuse);
    assert_eq!(directory_step(Action::Add, true), TargetStep::Merge);
    assert_eq!(directory_step(Action::Replace, true), TargetStep::Clear);
    assert_eq!(file_step(Action::New, true), TargetStep::Refuse);
    assert_eq!(file_step(Action::Add, true), TargetStep::Clear);
    assert_eq!(file_step(Action::Replace, false), TargetStep::Create);
}

#[test]
fn two_content_arrays_under_one_path_share_locations() {
    let doc = obj(vec![(
        "storage",
        obj(vec![(
            "files",
            arr(vec![obj(vec![
                ("append", arr(vec![obj(vec![("source", s("data:,first"))])])),
                ("extra", arr(vec![obj(vec![("source", s("data:,second"))])])),
                ("path", s("/etc/shared")),
            ])]),
        )]),
    )]);
    let (_, files) = disassemble(doc).unwrap();
    let locations: Vec<&str> = files.iter().map(|f| f.location.as_str()).collect();
    assert_eq!(locations, vec!["etc/shared/0", "etc/shared/0"]);
    assert_eq!(files[0].bytes, b"first".to_vec());
    assert_eq!(files[1].bytes, b"second".to_vec());
}

#[test]
fn nested_content_in_an_element_shares_its_index() {
    let doc = obj(vec![
        ("path", s("/p")),
        (
            "items",
            arr(vec![
                obj(vec![("inner", obj(vec![("source", s("data:,x")), ("path", s("/ignored"))]))]),
                obj(vec![("source", s("data:,y"))]),
                s("data:,not-an-object"),
            ]),
        ),
    ]);
    let (out, files) = disassemble(doc).unwrap();
    let locations: Vec<&str> = files.iter().map(|f| f.location.as_str()).collect();
    assert_eq!(locations, vec!["p/0", "p/1"]);
    assert_eq!(text(item(member(&out, "items"), 2)), "data:,not-an-object");
}
