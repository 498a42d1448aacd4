use bdecode::{bdecode, NodeType};

fn numbers(count: usize) -> Vec<u8> {
    let mut buf = b"l".to_vec();
    for n in 0..count {
        buf.extend_from_slice(format!("i{}e", n).as_bytes());
    }
    buf.push(b'e');
    buf
}

fn entries(count: usize) -> Vec<u8> {
    let mut buf = b"d".to_vec();
    for n in 0..count {
        let key = format!("k{}", n);
        buf.extend_from_slice(format!("{}:{}i{}e", key.len(), key, n).as_bytes());
    }
    buf.push(b'e');
    buf
}

#[test]
fn list_lookup_in_any_order_gives_the_same_items() {
    let buf = numbers(10);
    let bencode = bdecode(&buf).unwrap();
    let list = bencode.get_root().as_list().unwrap();
    let order: [usize; 12] = [5, 2, 9, 0, 9, 3, 3, 7, 1, 8, 4, 6];
    for index in order {
        let item = list.get(index).unwrap();
        assert_eq!(item.as_int().unwrap().value(), Ok(index as i64));
    }
    assert!(list.get(10).is_none());
    assert_eq!(list.len(), 10);
    assert_eq!(list.get(4).unwrap().as_int().unwrap().value(), Ok(4));
}

#[test]
fn list_length_after_lookup_is_the_same() {
    let buf = numbers(7);
    let bencode = bdecode(&buf).unwrap();
    let list = bencode.get_root().as_list().unwrap();
    assert!(list.get(6).is_some());
    assert_eq!(list.len(), 7);
    assert_eq!(list.len(), 7);
    let fresh = bencode.get_root().as_list().unwrap();
    assert!(fresh.get(100).is_none());
    assert_eq!(fresh.len(), 7);
    assert!(!fresh.is_empty());
}

#[test]
fn dict_lookup_in_any_order_gives_the_same_entries() {
    let buf = entries(8);
    let bencode = bdecode(&buf).unwrap();
    let dict = bencode.get_root().as_dict().unwrap();
    let order: [usize; 10] = [6, 1, 7, 0, 3, 3, 5, 2, 4, 7];
    for index in order {
        let (key, value) = dict.get(index).unwrap();
        assert_eq!(key, format!("k{}", index).as_bytes());
        assert_eq!(value.as_int().unwrap().value(), Ok(index as i64));
    }
    assert!(dict.get(8).is_none());
    assert_eq!(dict.len(), 8);
}

#[test]
fn dict_length_after_lookup_behind_the_end_is_the_same() {
    let bencode = bdecode(b"d1:ai1ee").unwrap();
    let dict = bencode.get_root().as_dict().unwrap();
    assert!(dict.get(1).is_none());
    assert_eq!(dict.len(), 1);
    assert!(dict.get(0).is_some());
    assert!(!dict.is_empty());
    let buf = entries(5);
    let bencode = bdecode(&buf).unwrap();
    let dict = bencode.get_root().as_dict().unwrap();
    assert!(dict.get(3).is_some());
    assert!(dict.get(9).is_none());
    assert_eq!(dict.len(), 5);
}

#[test]
fn find_returns_the_first_entry_with_the_key() {
    let bencode = bdecode(b"d1:ai1e1:bi2e1:ai3e2:abi4ee").unwrap();
    let dict = bencode.get_root().as_dict().unwrap();
    assert_eq!(dict.find(b"a").unwrap().as_int().unwrap().value(), Ok(1));
    assert_eq!(dict.find(b"b").unwrap().as_int().unwrap().value(), Ok(2));
    assert_eq!(dict.find(b"ab").unwrap().as_int().unwrap().value(), Ok(4));
    assert!(dict.find(b"c").is_none());
    assert!(dict.find(b"").is_none());
    assert_eq!(dict.find(b"a").unwrap().as_int().unwrap().value(), Ok(1));
}

#[test]
fn find_does_not_look_into_nested_dictionaries() {
    let bencode = bdecode(b"d1:ad1:xi1ee1:xi2ee").unwrap();
    let dict = bencode.get_root().as_dict().unwrap();
    assert_eq!(dict.find(b"x").unwrap().as_int().unwrap().value(), Ok(2));
    let inner = dict.find(b"a").unwrap().as_dict().unwrap();
    assert_eq!(inner.find(b"x").unwrap().as_int().unwrap().value(), Ok(1));
}

#[test]
fn empty_containers_have_no_items() {
    let bencode = bdecode(b"de").unwrap();
    let dict = bencode.get_root().as_dict().unwrap();
    assert_eq!(dict.len(), 0);
    assert!(dict.is_empty());
    assert!(dict.get(0).is_none());
    assert!(dict.find(b"x").is_none());
    let bencode = bdecode(b"le").unwrap();
    let list = bencode.get_root().as_list().unwrap();
    assert_eq!(list.len(), 0);
    assert!(list.is_empty());
    assert!(list.get(0).is_none());
}

#[test]
fn list_walk_returns_every_item_in_order() {
    let bencode = bdecode(b"l4:spami42eleli1eee").unwrap();
    let list = bencode.get_root().as_list().unwrap();
    let mut walk = list.iter();
    assert_eq!(walk.size_hint(), (0, None));
    assert_eq!(walk.next().unwrap().as_string().unwrap().as_bytes(), b"spam");
    assert_eq!(walk.next().unwrap().as_int().unwrap().value(), Ok(42));
    assert_eq!(walk.next().unwrap().node_type(), NodeType::List);
    let last = walk.next().unwrap().as_list().unwrap();
    assert_eq!(last.len(), 1);
    assert!(walk.next().is_none());
    assert!(walk.next().is_none());
    // a second walk begins at the first item again
    let mut again = list.iter();
    assert_eq!(again.next().unwrap().as_string().unwrap().as_bytes(), b"spam");
}

#[test]
fn list_walk_knows_the_length_once_it_was_asked() {
    let buf = numbers(3);
    let bencode = bdecode(&buf).unwrap();
    let list = bencode.get_root().as_list().unwrap();
    assert_eq!(list.len(), 3);
    let mut walk = list.iter();
    assert_eq!(walk.size_hint(), (3, Some(3)));
    assert!(walk.next().is_some());
    assert_eq!(walk.size_hint(), (2, Some(3)));
    assert!(walk.next().is_some());
    assert!(walk.next().is_some());
    assert_eq!(walk.size_hint(), (0, Some(3)));
    assert!(walk.next().is_none());
}

#[test]
fn dict_walk_returns_every_entry_in_order() {
    let bencode = bdecode(b"d1:ad1:bi1e1:c4:abcde1:di3ee").unwrap();
    let dict = bencode.get_root().as_dict().unwrap();
    let mut walk = dict.iter();
    assert_eq!(walk.size_hint(), (0, None));
    let (key, value) = walk.next().unwrap();
    assert_eq!(key, b"a");
    assert_eq!(value.as_dict().unwrap().len(), 2);
    let (key, value) = walk.next().unwrap();
    assert_eq!(key, b"d");
    assert_eq!(value.as_int().unwrap().value(), Ok(3));
    assert!(walk.next().is_none());
    assert!(walk.next().is_none());
    assert_eq!(dict.len(), 2);
    let mut again = dict.iter();
    assert_eq!(again.size_hint(), (2, Some(2)));
    assert!(again.next().is_some());
    assert_eq!(again.size_hint(), (1, Some(2)));
}

#[test]
fn clones_answer_as_the_original_does() {
    let buf = numbers(6);
    let bencode = bdecode(&buf).unwrap();
    let list = bencode.get_root().as_list().unwrap();
    assert!(list.get(4).is_some());
    let copy = list.clone();
    assert_eq!(copy.get(2).unwrap().as_int().unwrap().value(), Ok(2));
    assert_eq!(copy.get(5).unwrap().as_int().unwrap().value(), Ok(5));
    assert_eq!(copy.len(), 6);
    let owner = bencode.clone();
    assert_eq!(owner.get_root().as_list().unwrap().len(), 6);
    let buf = entries(3);
    let bencode = bdecode(&buf).unwrap();
    let dict = bencode.get_root().as_dict().unwrap();
    assert!(dict.get(2).is_some());
    let copy = dict.clone();
    assert_eq!(copy.get(1).unwrap().0, b"k1");
    assert_eq!(copy.len(), 3);
}

fn visit(node: bdecode::BencodeAny<'_, '_>) -> usize {
    match node.node_type() {
        NodeType::Dict => {
            let dict = node.as_dict().unwrap();
            let mut count = 1;
            for index in 0..dict.len() {
                let (key, value) = dict.get(index).unwrap();
                assert!(dict.find(key).is_some());
                count += visit(value);
            }
            assert!(dict.get(dict.len()).is_none());
            count
        }
        NodeType::List => {
            let list = node.as_list().unwrap();
            let mut count = 1;
            for index in 0..list.len() {
                count += visit(list.get(index).unwrap());
            }
            assert!(list.get(list.len()).is_none());
            count
        }
        NodeType::Int => {
            let _ = node.as_int().unwrap().value();
            1
        }
        NodeType::Str => {
            let _ = node.as_string().unwrap().as_bytes();
            1
        }
    }
}

#[test]
fn every_buffer_of_four_letters_decodes_or_is_refused() {
    let letters = b"dlie01:-x";
    let mut accepted = 0;
    for a in letters {
        for b in letters {
            for c in letters {
                for d in letters {
                    let buf = [*a, *b, *c, *d];
                    if let Ok(bencode) = bdecode(&buf) {
                        accepted += 1;
                        assert!(visit(bencode.get_root()) >= 1);
                    }
                }
            }
        }
    }
    assert!(accepted > 0);
}

#[test]
fn torrent_shaped_dictionary_is_read() {
    let buf: &[u8] = b"d8:announce20:udp://example.org:8013:announce-listll20:udp://example.org:80el24:http://example.net/trackee7:comment4:test10:created by4:unit13:creation datei1500000000e8:encoding5:utf-84:infod6:lengthi12345e4:name5:a.txt12:piece lengthi16384e6:pieces20:01234567890123456789ee";
    let torrent = bdecode(buf).unwrap();
    let top_level = torrent.get_root().as_dict().unwrap();
    let mut keys = Vec::new();
    for i in 0..top_level.len() {
        let (key, _value) = top_level.get(i).unwrap();
        keys.push(String::from_utf8(key.to_vec()).unwrap());
    }
    assert_eq!(
        keys,
        vec![
            "announce",
            "announce-list",
            "comment",
            "created by",
            "creation date",
            "encoding",
            "info"
        ]
    );
    let announce_list = top_level.find(b"announce-list").unwrap().as_list().unwrap();
    assert_eq!(announce_list.len(), 2);
    for x in 0..announce_list.len() {
        let alternatives = announce_list.get(x).unwrap().as_list().unwrap();
        assert_eq!(alternatives.len(), 1);
        let url = alternatives.get(0).unwrap().as_string().unwrap().as_bytes();
        assert!(url.starts_with(b"udp://") || url.starts_with(b"http://"));
    }
    let encoding = top_level.find(b"encoding").unwrap().as_string().unwrap();
    assert_eq!(encoding.as_bytes(), b"utf-8");
    let creation_date = top_level.find(b"creation date").unwrap().as_int().unwrap();
    assert_eq!(creation_date.value(), Ok(1500000000));
    let info = top_level.find(b"info").unwrap().as_dict().unwrap();
    assert_eq!(info.find(b"length").unwrap().as_int().unwrap().value(), Ok(12345));
    assert_eq!(info.find(b"pieces").unwrap().as_string().unwrap().as_bytes().len(), 20);
}
