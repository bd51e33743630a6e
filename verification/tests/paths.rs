use chunkah::path_map::PathMap;

#[test]
fn paths_are_found_however_they_are_written() {
    let mut map: PathMap<u32> = PathMap::new();
    assert_eq!(map.len(), 0);
    assert_eq!(map.get("/"), None);
    map.insert("/b".to_string(), 1);
    map.insert("/a/./x//".to_string(), 2);
    map.insert("/a/x".to_string(), 3);
    assert_eq!(map.len(), 2);
    // a path keeps the text that it was first put in with
    assert_eq!(map.path_at(0), "/a/./x//");
    assert_eq!(map.value_at(0), &3);
    for text in ["/a/x", "//a/x", "/a/x/", "/a/x/.", "/./a/x"] {
        assert_eq!(map.get(text), Some(&3), "{text}");
    }
    for text in ["a/x", "./a/x", "/a/../a/x", "/a/X", "/a", ""] {
        assert_eq!(map.get(text), None, "{text}");
    }
}

#[test]
fn paths_come_in_the_order_of_their_components() {
    let sorted = [
        "", "/", "/..", "/a", "/a/b", "/a/b/c", "/a-b", "/a.b", "/a0", "/b", "/z", "/é", ".", "..", "a",
    ];
    let mut map: PathMap<usize> = PathMap::new();
    for i in [7, 3, 14, 0, 11, 5, 9, 1, 13, 2, 8, 12, 4, 10, 6] {
        map.insert(sorted[i].to_string(), i);
    }
    assert_eq!(map.len(), sorted.len());
    for (i, path) in sorted.iter().enumerate() {
        assert_eq!(map.path_at(i), *path);
        assert_eq!(map.value_at(i), &i);
    }
}

#[test]
fn entries_are_made_once() {
    let mut map: PathMap<Vec<u32>> = PathMap::new();
    map.entry("/a".to_string(), vec![]).push(1);
    map.entry("/a/".to_string(), vec![7]).push(2);
    map.entry("/b".to_string(), vec![7]).push(3);
    assert_eq!(map.get("/a"), Some(&vec![1, 2]));
    assert_eq!(map.get("/b"), Some(&vec![7, 3]));
    assert_eq!(map.len(), 2);
}
