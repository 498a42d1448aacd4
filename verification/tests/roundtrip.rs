use bdecode::{bdecode, BencodeAny, NodeType};

#[derive(Debug, Clone, PartialEq)]
enum Tree {
    Int(i64),
    Str(Vec<u8>),
    List(Vec<Tree>),
    Dict(Vec<(Vec<u8>, Tree)>),
}

fn encode_bytes(bytes: &[u8], out: &mut Vec<u8>) {
    out.extend_from_slice(bytes.len().to_string().as_bytes());
    out.push(b':');
    out.extend_from_slice(bytes);
}

fn encode(tree: &Tree, out: &mut Vec<u8>) {
    match tree {
        Tree::Int(n) => {
            out.push(b'i');
            out.extend_from_slice(n.to_string().as_bytes());
            out.push(b'e');
        }
        Tree::Str(s) => encode_bytes(s, out),
        Tree::List(items) => {
            out.push(b'l');
            for item in items {
                encode(item, out);
            }
            out.push(b'e');
        }
        Tree::Dict(entries) => {
            out.push(b'd');
            for (key, value) in entries {
                encode_bytes(key, out);
                encode(value, out);
            }
            out.push(b'e');
        }
    }
}

fn read(node: BencodeAny<'_, '_>) -> Tree {
    match node.node_type() {
        NodeType::Int => Tree::Int(node.as_int().unwrap().value().unwrap()),
        NodeType::Str => Tree::Str(node.as_string().unwrap().as_bytes().to_vec()),
        NodeType::List => {
            let list = node.as_list().unwrap();
            let mut items = Vec::new();
            let mut walk = list.iter();
            while let Some(item) = walk.next() {
                items.push(read(item));
            }
            assert_eq!(list.len(), items.len());
            for (index, item) in items.iter().enumerate() {
                assert_eq!(&read(list.get(index).unwrap()), item);
            }
            assert!(list.get(items.len()).is_none());
            Tree::List(items)
        }
        NodeType::Dict => {
            let dict = node.as_dict().unwrap();
            let mut entries = Vec::new();
            let mut walk = dict.iter();
            while let Some((key, value)) = walk.next() {
                entries.push((key.to_vec(), read(value)));
            }
            assert_eq!(dict.len(), entries.len());
            for (index, (key, value)) in entries.iter().enumerate() {
                let (found_key, found_value) = dict.get(index).unwrap();
                assert_eq!(found_key, key.as_slice());
                assert_eq!(&read(found_value), value);
                let first = entries.iter().position(|(other, _)| other == key).unwrap();
                assert_eq!(read(dict.find(key).unwrap()), entries[first].1);
            }
            assert!(dict.get(entries.len()).is_none());
            Tree::Dict(entries)
        }
    }
}

struct Dice(u64);

impl Dice {
    fn roll(&mut self, sides: u64) -> u64 {
        self.0 = self.0.wrapping_mul(6364136223846793005).wrapping_add(1442695040888963407);
        (self.0 >> 33) % sides
    }

    fn bytes(&mut self) -> Vec<u8> {
        let len = self.roll(12) as usize;
        (0..len).map(|_| self.roll(256) as u8).collect()
    }

    fn tree(&mut self, depth: u32) -> Tree {
        let kinds = if depth == 0 { 2 } else { 4 };
        match self.roll(kinds) {
            0 => match self.roll(4) {
                0 => Tree::Int(i64::MIN),
                1 => Tree::Int(i64::MAX),
                2 => Tree::Int(self.roll(1000) as i64 - 500),
                _ => Tree::Int((self.roll(u64::MAX) as i64).wrapping_mul(2654435761)),
            },
            1 => Tree::Str(self.bytes()),
            2 => {
                let len = self.roll(5);
                Tree::List((0..len).map(|_| self.tree(depth - 1)).collect())
            }
            _ => {
                let len = self.roll(5);
                Tree::Dict((0..len).map(|_| (self.bytes(), self.tree(depth - 1))).collect())
            }
        }
    }
}

#[test]
fn decoding_undoes_encoding() {
    let mut dice = Dice(2024);
    for _ in 0..2000 {
        let tree = dice.tree(4);
        let mut buf = Vec::new();
        encode(&tree, &mut buf);
        let bencode = bdecode(&buf).unwrap();
        assert_eq!(read(bencode.get_root()), tree);
    }
}

#[test]
fn decoding_ignores_what_follows_the_value() {
    let mut dice = Dice(7);
    for _ in 0..500 {
        let tree = dice.tree(3);
        let mut buf = Vec::new();
        encode(&tree, &mut buf);
        buf.extend_from_slice(&dice.bytes());
        let bencode = bdecode(&buf).unwrap();
        assert_eq!(read(bencode.get_root()), tree);
    }
}

#[test]
fn every_proper_prefix_of_a_container_is_refused() {
    let mut dice = Dice(99);
    let mut seen = 0;
    while seen < 50 {
        let tree = dice.tree(3);
        if !matches!(tree, Tree::List(_) | Tree::Dict(_)) {
            continue;
        }
        seen += 1;
        let mut buf = Vec::new();
        encode(&tree, &mut buf);
        for len in 0..buf.len() {
            assert!(bdecode(&buf[..len]).is_err());
        }
    }
}

#[test]
fn the_example_dictionary_reads_as_its_tree() {
    let bencode = bdecode(b"d1:ad1:bi1e1:c4:abcde1:di3ee").unwrap();
    let expected = Tree::Dict(vec![
        (
            b"a".to_vec(),
            Tree::Dict(vec![
                (b"b".to_vec(), Tree::Int(1)),
                (b"c".to_vec(), Tree::Str(b"abcd".to_vec())),
            ]),
        ),
        (b"d".to_vec(), Tree::Int(3)),
    ]);
    assert_eq!(read(bencode.get_root()), expected);
}
