use ra_fmt::json::Json;
use ra_fmt::lang_item::{Crate, Def, LangItemTarget, Module};
use ra_fmt::metrics::{compare_str, read_field, Host, HostError, Metrics, Order};

#[test]
fn escapes_like_escape_default() {
    let mut j = Json::default();
    j.string_token("a\"b\n\t\\'é");
    assert_eq!(j.as_str(), "\"a\\\"b\\n\\t\\\\\\'\\u{e9}\"");
    let expected: String = "a\"b\n\t\\'é".chars().flat_map(|c| c.escape_default()).collect();
    assert_eq!(j.as_str(), format!("\"{}\"", expected));
}

#[test]
fn commas_between_fields_and_items() {
    let mut j = Json::default();
    j.begin_object();
    j.field("a");
    j.begin_array();
    j.number(1);
    j.number(20);
    j.string("x");
    j.end_array();
    j.field("b");
    j.number(0);
    j.end_object();
    assert_eq!(j.as_str(), "{\"a\":[1,20,\"x\"],\"b\":,0}");
}

#[test]
fn large_numbers_in_decimal() {
    let mut j = Json::default();
    j.number(18446744073709551615);
    assert_eq!(j.as_str(), "18446744073709551615");
}

fn host() -> Host {
    Host::from_parts("Linux".to_string(), "cpu 9".to_string(), "16 kB".to_string())
}

#[test]
fn host_as_json() {
    let mut j = Json::default();
    host().to_json(&mut j);
    assert_eq!(j.as_str(), "{\"os\":\"Linux\",\"cpu\":,\"cpu 9\",\"mem\":,\"16 kB\"}");
}

#[test]
fn report_keeps_names_sorted_and_unique() {
    let mut m = Metrics::new(host(), 7, "abc".to_string());
    m.report("build", 10, "ms");
    m.report("analysis", 3, "ms");
    m.report("build", 12, "ms");
    m.report("lines", 500, "#");
    let names: Vec<&str> = m.metrics.iter().map(|x| x.name.as_str()).collect();
    assert_eq!(names, vec!["analysis", "build", "lines"]);
    assert_eq!(m.metrics[1].value, 12);
}

#[test]
fn metrics_as_json() {
    let mut m = Metrics::new(host(), 1600000000, "abc".to_string());
    m.report("build", 10, "ms");
    m.report("a", 2, "s");
    let j = m.json();
    assert_eq!(
        j.as_str(),
        "{\"host\":{\"os\":\"Linux\",\"cpu\":,\"cpu 9\",\"mem\":,\"16 kB\"},\"timestamp\":,1600000000,\
         \"revision\":,\"abc\",\"metrics\":{\"a\":[2,\"s\"],\"build\":[10,\"ms\"]}}"
    );
}

#[test]
fn string_order() {
    assert!(matches!(compare_str("ab", "b"), Order::Less));
    assert!(matches!(compare_str("ab", "a"), Order::Greater));
    assert!(matches!(compare_str("ab", "ab"), Order::Equal));
    assert!(matches!(compare_str("", "a"), Order::Less));
}

#[test]
fn lang_item_target_crate() {
    let m = Module { id: 3, krate: Some(Crate { id: 9 }) };
    let t = LangItemTarget::ImplBlock(Def { id: 1, module: m });
    assert_eq!(t.krate(), Some(Crate { id: 9 }));
    let orphan = LangItemTarget::Trait(Def { id: 2, module: Module { id: 4, krate: None } });
    assert_eq!(orphan.krate(), None);
}

#[test]
fn host_from_system_texts() {
    let os = "NAME=\"Ubuntu\"\nPRETTY_NAME=\"Ubuntu 20.04 LTS\"\nID=ubuntu\n";
    let cpu = "processor\t: 0\r\nmodel name\t: Intel(R) Core(TM) i7\r\nflags\t: fpu\n";
    let mem = "MemFree:  100 kB\nMemTotal:       16314356 kB\n";
    let h = Host::new(os, cpu, mem).unwrap();
    assert_eq!(h.os, "Ubuntu 20.04 LTS");
    assert_eq!(h.cpu, "Intel(R) Core(TM) i7");
    assert_eq!(h.mem, "16314356 kB");
}

#[test]
fn host_errors_name_the_missing_field() {
    let os = "PRETTY_NAME=x\n";
    let cpu = "model name: y\n";
    let mem = "MemTotal: 1 kB";
    assert!(matches!(Host::new("NAME=x\n", cpu, mem), Err(HostError::OsRelease)));
    assert!(matches!(Host::new(os, "vendor: y", mem), Err(HostError::CpuInfo)));
    assert!(matches!(Host::new(os, cpu, ""), Err(HostError::MemInfo)));
    let h = Host::new(os, cpu, mem).unwrap();
    assert_eq!((h.os.as_str(), h.cpu.as_str(), h.mem.as_str()), ("x", "y", "1 kB"));
}

#[test]
fn read_field_takes_first_matching_line() {
    assert_eq!(read_field("a=1\nb=2\nb=3\n", "b="), Some("2".to_string()));
    assert_eq!(read_field("a=1\n  b=2\n", "b="), None);
    assert_eq!(read_field("key:   spaced value  \r\n", "key:"), Some("spaced value".to_string()));
    assert_eq!(read_field("", "key"), None);
    assert_eq!(read_field("key", "key"), Some(String::new()));
}

use ra_fmt::lang_item::{lang_item_from_ast, Attr, ImplBlock, LangItems, ModuleItems};

fn attr(k: &str, v: &str) -> Attr {
    Attr { key: k.to_string(), value: v.to_string() }
}

fn def(id: u32) -> Def {
    Def { id, module: Module { id: 0, krate: Some(Crate { id: 1 }) } }
}

#[test]
fn lang_attribute_is_found() {
    assert_eq!(lang_item_from_ast(&vec![attr("doc", "x"), attr("lang", "add"), attr("lang", "sub")]), Some("add".to_string()));
    assert_eq!(lang_item_from_ast(&vec![attr("doc", "lang")]), None);
}

#[test]
fn first_lang_item_of_a_name_wins() {
    let inner = ModuleItems {
        impl_blocks: vec![
            ImplBlock { def: def(3), attrs: vec![attr("lang", "add")] },
            ImplBlock { def: def(4), attrs: vec![attr("lang", "neg")] },
        ],
        children: vec![],
    };
    let root = ModuleItems {
        impl_blocks: vec![
            ImplBlock { def: def(1), attrs: vec![] },
            ImplBlock { def: def(2), attrs: vec![attr("lang", "add")] },
        ],
        children: vec![inner],
    };
    let items = LangItems::lang_items_query(Some(&root));
    assert_eq!(items.target("add"), Some(&LangItemTarget::ImplBlock(def(2))));
    assert_eq!(items.target("neg"), Some(&LangItemTarget::ImplBlock(def(4))));
    assert_eq!(items.target("sub"), None);
    assert_eq!(items.items.len(), 2);
    assert_eq!(items.items.get("add"), Some(&LangItemTarget::ImplBlock(def(2))));
    assert!(LangItems::lang_items_query(None).target("add").is_none());
}

use ra_fmt::lang_item::{CrateData, CrateGraph};

fn crate_with(items: &[(&str, u32)], dependencies: Vec<usize>) -> CrateData {
    let root = ModuleItems {
        impl_blocks: items
            .iter()
            .map(|(n, id)| ImplBlock { def: def(*id), attrs: vec![attr("lang", n)] })
            .collect(),
        children: vec![],
    };
    CrateData { lang_items: LangItems::lang_items_query(Some(&root)), dependencies }
}

#[test]
fn lang_item_found_through_dependencies() {
    let graph = CrateGraph {
        crates: vec![
            crate_with(&[("neg", 1)], vec![1, 2]),
            crate_with(&[], vec![2]),
            crate_with(&[("add", 7)], vec![]),
            crate_with(&[("add", 9)], vec![]),
        ],
    };
    assert_eq!(LangItems::lang_item_query(&graph, 0, "neg"), Some(LangItemTarget::ImplBlock(def(1))));
    assert_eq!(LangItems::lang_item_query(&graph, 0, "add"), Some(LangItemTarget::ImplBlock(def(7))));
    assert_eq!(LangItems::lang_item_query(&graph, 3, "add"), Some(LangItemTarget::ImplBlock(def(9))));
    assert_eq!(LangItems::lang_item_query(&graph, 1, "neg"), None);
    assert_eq!(LangItems::lang_item_query(&graph, 9, "add"), None);
}
