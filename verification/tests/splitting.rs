use encoded_uri::encoder::Path;
use encoded_uri::estr::EStr;

fn pieces_of(s: &str, delim: char) -> Vec<String> {
    let e = EStr::<Path>::new(s);
    let mut sp = e.split(delim);
    let mut out = Vec::new();
    while let Some(p) = sp.next() {
        out.push(p.as_str());
    }
    out
}

#[test]
fn split_on_commas() {
    assert_eq!(pieces_of("a,b,c", ','), vec!["a", "b", "c"]);
    assert_eq!(pieces_of(",", ','), vec!["", ""]);
    assert_eq!(pieces_of("", ','), vec![""]);
    assert_eq!(pieces_of("abc", ','), vec!["abc"]);
}

#[test]
fn split_rejoin_reproduces_original() {
    let original = "a,b%20c,,d";
    let parts = pieces_of(original, ',');
    assert_eq!(parts.join(","), original);
}

#[test]
fn split_from_the_back() {
    let e = EStr::<Path>::new("a,b,c");
    let mut sp = e.split(',');
    assert_eq!(sp.next_back().unwrap().as_str(), "c");
    assert_eq!(sp.next().unwrap().as_str(), "a");
    assert_eq!(sp.next().unwrap().as_str(), "b");
    assert!(sp.next().is_none());
    assert!(sp.next_back().is_none());
}

#[test]
fn collect_pieces_gathers_all() {
    let e = EStr::<Path>::new("x;y;z");
    let mut sp = e.split(';');
    let got: Vec<String> = sp.collect_pieces().iter().map(|p| p.as_str()).collect();
    assert_eq!(got, vec!["x", "y", "z"]);
}

#[test]
fn split_once_finds_first() {
    let (a, b) = EStr::<Path>::new("foo;bar").split_once(';').unwrap();
    assert_eq!(a.as_str(), "foo");
    assert_eq!(b.as_str(), "bar");
    let (c, d) = EStr::<Path>::new("a;b;c").split_once(';').unwrap();
    assert_eq!(c.as_str(), "a");
    assert_eq!(d.as_str(), "b;c");
    assert!(EStr::<Path>::new("foo").split_once(';').is_none());
}

fn segments_of(path: &str) -> Vec<String> {
    let e = EStr::<Path>::new(path);
    let mut sp = e.segments();
    let mut out = Vec::new();
    while let Some(p) = sp.next() {
        out.push(p.as_str());
    }
    out
}

#[test]
fn empty_path_has_no_segments() {
    assert_eq!(segments_of(""), Vec::<String>::new());
}

#[test]
fn root_path_has_one_empty_segment() {
    assert_eq!(segments_of("/"), vec![""]);
}

#[test]
fn rootless_path_segments() {
    assert_eq!(segments_of("a/b/c"), vec!["a", "b", "c"]);
}

#[test]
fn absolute_path_segments_keep_inner_empties() {
    assert_eq!(segments_of("/path/to//dir/"), vec!["path", "to", "", "dir", ""]);
}

#[test]
fn absolute_and_rootless() {
    assert!(EStr::<Path>::new("/a").is_absolute());
    assert!(!EStr::<Path>::new("/a").is_rootless());
    assert!(EStr::<Path>::new("a").is_rootless());
    assert!(!EStr::<Path>::new("a").is_absolute());
    assert!(EStr::<Path>::new("").is_rootless());
}
