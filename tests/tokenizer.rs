//! Tests of the tokenizer against a fragment of the p50k vocabulary.
use gpt_bpe::bpe::BytePairEncoder;
use gpt_bpe::codec::{decode, unknown_ids};
use gpt_bpe::pretoken::pretokenize;
use gpt_bpe::table::{LoadError, MergeTable, VocabError, Vocabulary};
use gpt_bpe::visible::{to_byte, to_visible};

/// Whether `b` is drawn as itself.
fn printable(b: u8) -> bool {
    (0x21..=0x7e).contains(&b) || (0xa1..=0xac).contains(&b) || b >= 0xae
}

/// The 256 single-byte tokens with their GPT-2 ids: printable bytes first.
fn byte_tokens() -> Vec<(Vec<u8>, u32)> {
    let mut out = Vec::new();
    for b in 0..=255u8 {
        if printable(b) {
            out.push((to_visible(b), out.len() as u32));
        }
    }
    for b in 0..=255u8 {
        if !printable(b) {
            out.push((to_visible(b), out.len() as u32));
        }
    }
    out
}

/// Multi-byte tokens of p50k that the scenarios use; `\u{120}` is the
/// visible form of a space.
const WORDS: [(&str, u32); 31] = [
    ("let", 1616),
    ("\u{120}there", 612),
    ("\u{120}be", 307),
    ("\u{120}light", 1657),
    ("ind", 521),
    ("iv", 452),
    ("is", 271),
    ("ibl", 10506),
    ("isible", 12843),
    ("\u{120}values", 3815),
    ("neum", 25668),
    ("on", 261),
    ("oul", 25955),
    ("tr", 859),
    ("am", 291),
    ("icro", 4951),
    ("scop", 22163),
    ("ics", 873),
    ("ilic", 41896),
    ("ov", 709),
    ("ol", 349),
    ("can", 5171),
    ("oc", 420),
    ("ios", 4267),
    ("amic", 2500),
    ("ros", 1416),
    ("cop", 404),
    ("ocon", 36221),
    ("iosis", 42960),
    ("hello", 31373),
    ("\u{120}world", 995),
];

fn p50k_tokens() -> Vocabulary {
    let mut entries = byte_tokens();
    for (w, id) in WORDS {
        entries.push((w.as_bytes().to_vec(), id));
    }
    Vocabulary::new(entries).unwrap()
}

fn p50k_merges() -> MergeTable {
    let pairs = ["in", "ind", "iv", "is", "ib", "ibl"];
    let mut entries = Vec::new();
    for (rank, p) in pairs.iter().enumerate() {
        entries.push((p.as_bytes().to_vec(), rank as u32));
    }
    MergeTable::new(entries)
}

fn from_vec(graph: Vec<&str>) -> Vec<Vec<u8>> {
    graph.iter().map(|c| c.as_bytes().to_vec()).collect()
}

fn chunks(s: &[u8]) -> Vec<Vec<u8>> {
    pretokenize(s).iter().map(|&(a, b)| s[a..b].to_vec()).collect()
}

#[test]
fn fixed() {
    let text = "qwerrtbtbjntkj eriot3v3oin;ecnwerkjc3tinvijwnclwje nininx34itnvj j foizzn jgnit ionhkr;n  yo 409joi345ig42vj-24jf4-9gj4-jbtrbkn i4tyjb4-6hj-53gjiovergn er}{}WDZ~XWEFVergjvknijoi45-234@%$#^3kg3potbjit0jb3-4ovV#%(YH$^_)&H$_B#5TB$YB46YN$^_+HH)$#$@#$FJOK#PLEMQPWOrfpoi4jviomoecqOCMOJV%_J35ktbn3o5ib3596035069gjkerv mw, wlkemcptg59../l,lm.?\"KMoimlk l`mzqck;enrc;enco3icnejkc sa~Ef wkf w;rfjvo±!{:W<S{QPEC<{AS{P MDVS{Ms;alcmlkv eka;jtgoiw4o[wi4tgo[5i6gnvlkac ;lk~ZXET \"}TH|? \"TJ? :<r\tb,prtv3=450o52-!$%%^_$^&)#(@@$_)%i12ojrqw[oyy;n  yo 409joi";
    assert_eq!(
        chunks(text.as_bytes()),
        vec![
        vec![113, 119, 101, 114, 114, 116, 98, 116, 98, 106, 110, 116, 107, 106],
        vec![32, 101, 114, 105, 111, 116],
        vec![51],
        vec![118],
        vec![51],
        vec![111, 105, 110],
        vec![59],
        vec![101, 99, 110, 119, 101, 114, 107, 106, 99],
        vec![51],
        vec![116, 105, 110, 118, 105, 106, 119, 110, 99, 108, 119, 106, 101],
        vec![32, 110, 105, 110, 105, 110, 120],
        vec![51, 52],
        vec![105, 116, 110, 118, 106],
        vec![32, 106],
        vec![32, 102, 111, 105, 122, 122, 110],
        vec![32, 106, 103, 110, 105, 116],
        vec![32, 105, 111, 110, 104, 107, 114],
        vec![59],
        vec![110],
        vec![32, 32, 121],
        vec![111],
        vec![32, 52, 48, 57],
        vec![106, 111, 105],
        vec![51, 52, 53],
        vec![105, 103],
        vec![52, 50],
        vec![118, 106],
        vec![45],
        vec![50, 52],
        vec![106, 102],
        vec![52],
        vec![45],
        vec![57],
        vec![103, 106],
        vec![52],
        vec![45],
        vec![106, 98, 116, 114, 98, 107, 110],
        vec![32, 105],
        vec![52],
        vec![116, 121, 106, 98],
        vec![52],
        vec![45],
        vec![54],
        vec![104, 106],
        vec![45],
        vec![53, 51],
        vec![103, 106, 105, 111, 118, 101, 114, 103, 110],
        vec![32, 101, 114],
        vec![125, 123, 125],
        vec![87, 68, 90],
        vec![126],
        vec![88, 87, 69, 70, 86, 101, 114, 103, 106, 118, 107, 110, 105, 106, 111, 105],
        vec![52, 53],
        vec![45],
        vec![50, 51, 52],
        vec![64, 37, 36, 35, 94],
        vec![51],
        vec![107, 103],
        vec![51],
        vec![112, 111, 116, 98, 106, 105, 116],
        vec![48],
        vec![106, 98],
        vec![51],
        vec![45],
        vec![52],
        vec![111, 118, 86],
        vec![35, 37, 40],
        vec![89, 72],
        vec![36, 94, 95, 41, 38],
        vec![72],
        vec![36, 95],
        vec![66],
        vec![35],
        vec![53],
        vec![84, 66],
        vec![36],
        vec![89, 66],
        vec![52, 54],
        vec![89, 78],
        vec![36, 94, 95, 43],
        vec![72, 72],
        vec![41, 36, 35, 36, 64, 35, 36],
        vec![70, 74, 79, 75],
        vec![35],
        vec![80, 76, 69, 77, 81, 80, 87, 79, 114, 102, 112, 111, 105],
        vec![52],
        vec![106, 118, 105, 111, 109, 111, 101, 99, 113, 79, 67, 77, 79, 74, 86],
        vec![37, 95],
        vec![74],
        vec![51, 53],
        vec![107, 116, 98, 110],
        vec![51],
        vec![111],
        vec![53],
        vec![105, 98],
        vec![51, 53, 57, 54, 48, 51, 53, 48, 54, 57],
        vec![103, 106, 107, 101, 114, 118],
        vec![32, 109, 119],
        vec![44],
        vec![32, 119, 108, 107, 101, 109, 99, 112, 116, 103],
        vec![53, 57],
        vec![46, 46, 47],
        vec![108],
        vec![44],
        vec![108, 109],
        vec![46, 63, 34],
        vec![75, 77, 111, 105, 109, 108, 107],
        vec![32, 108],
        vec![96],
        vec![109, 122, 113, 99, 107],
        vec![59],
        vec![101, 110, 114, 99],
        vec![59],
        vec![101, 110, 99, 111],
        vec![51],
        vec![105, 99, 110, 101, 106, 107, 99],
        vec![32, 115, 97],
        vec![126],
        vec![69, 102],
        vec![32, 119, 107, 102],
        vec![32, 119],
        vec![59],
        vec![114, 102, 106, 118, 111],
        vec![194, 177, 33, 123, 58],
        vec![87],
        vec![60],
        vec![83],
        vec![123],
        vec![81, 80, 69, 67],
        vec![60, 123],
        vec![65, 83],
        vec![123],
        vec![80],
        vec![32, 77, 68, 86, 83],
        vec![123],
        vec![77, 115],
        vec![59],
        vec![97, 108, 99, 109, 108, 107, 118],
        vec![32, 101, 107, 97],
        vec![59],
        vec![106, 116, 103, 111, 105, 119],
        vec![52],
        vec![111],
        vec![91],
        vec![119, 105],
        vec![52],
        vec![116, 103, 111],
        vec![91],
        vec![53],
        vec![105],
        vec![54],
        vec![103, 110, 118, 108, 107, 97, 99],
        vec![32, 59],
        vec![108, 107],
        vec![126],
        vec![90, 88, 69, 84],
        vec![32, 34, 125],
        vec![84, 72],
        vec![124, 63],
        vec![32, 34],
        vec![84, 74],
        vec![63],
        vec![32, 58, 60],
        vec![114],
        vec![9, 98],
        vec![44],
        vec![112, 114, 116, 118],
        vec![51],
        vec![61],
        vec![52, 53, 48],
        vec![111],
        vec![53, 50],
        vec![45, 33, 36, 37, 37, 94, 95, 36, 94, 38, 41, 35, 40, 64, 64, 36, 95, 41, 37],
        vec![105],
        vec![49, 50],
        vec![111, 106, 114, 113, 119],
        vec![91],
        vec![111, 121, 121],
        vec![59],
        vec![110],
        vec![32, 32, 121],
        vec![111],
        vec![32, 52, 48, 57],
        vec![106, 111, 105]
        ]
    );
}

#[test]
fn grapheme() {
    assert_eq!(
        gpt_bpe::codec::grapheme(b"let there be light."),
        from_vec(vec![
            "l", "e", "t", "Ġ", "t", "h", "e", "r", "e", "Ġ", "b", "e", "Ġ", "l", "i", "g",
            "h", "t", "."
        ])
    );

    assert_eq!(
        gpt_bpe::codec::grapheme(b"indivisible values"),
        from_vec(vec![
            "i", "n", "d", "i", "v", "i", "s", "i", "b", "l", "e", "Ġ", "v", "a", "l", "u",
            "e", "s"
        ])
    );

    assert_eq!(
        gpt_bpe::codec::grapheme(b"Pneumonoultramicroscopicsilicovolcanoconiosis"),
        from_vec(vec![
            "P", "n", "e", "u", "m", "o", "n", "o", "u", "l", "t", "r", "a", "m", "i", "c",
            "r", "o", "s", "c", "o", "p", "i", "c", "s", "i", "l", "i", "c", "o", "v", "o",
            "l", "c", "a", "n", "o", "c", "o", "n", "i", "o", "s", "i", "s"
        ])
    );

    assert_eq!(
        gpt_bpe::codec::grapheme("hello 👋 world 🌍.".as_bytes()),
        from_vec(vec![
            "h", "e", "l", "l", "o", "Ġ", "ð", "Ł", "ĳ", "ĭ", "Ġ", "w", "o", "r", "l", "d",
            "Ġ", "ð", "Ł", "Į", "į", ".",
        ])
    );
}

#[test]
fn encode() {
    let vocab = p50k_tokens();
    let merges = p50k_merges();
    assert_eq!(
        gpt_bpe::codec::encode(b"let there be light.", &vocab, &merges),
        vec![1616, 612, 307, 1657, 13]
    );
    assert_eq!(
        gpt_bpe::codec::encode(b"indivisible values.", &vocab, &merges),
        vec![521, 452, 271, 10506, 68, 3815, 13]
    );
    let word = b"Pneumonoultramicroscopicsilicovolcanoconiosis";
    let ids = gpt_bpe::codec::encode(word, &vocab, &merges);
    assert_eq!(decode(&ids, &vocab), word.to_vec());
    let text = "hello 👋 world 🌍.".as_bytes();
    let ids = gpt_bpe::codec::encode(text, &vocab, &merges);
    assert_eq!(&ids[..1], &[31373]);
    assert_eq!(decode(&ids, &vocab), text.to_vec());
}

#[test]
fn decode_scenarios() {
    let vocab = p50k_tokens();
    assert_eq!(
        b"let there be light.".to_vec(),
        gpt_bpe::codec::decode(&[1616, 612, 307, 1657, 13], &vocab)
    );
    assert_eq!(
        b"indivisible values.".to_vec(),
        gpt_bpe::codec::decode(&[521, 452, 12843, 3815, 13], &vocab)
    );
    assert_eq!(
        b"Pneumonoultramicroscopicsilicovolcanoconiosis".to_vec(),
        gpt_bpe::codec::decode(
            &[47, 25668, 261, 25955, 859, 2500, 1416, 404, 873, 41896, 709, 349, 5171, 36221, 42960],
            &vocab
        )
    );
    assert_eq!(b"hello world".to_vec(), gpt_bpe::codec::decode(&[31373, 995], &vocab));
}

#[test]
fn decode_skips_unknown_ids() {
    let vocab = p50k_tokens();
    assert_eq!(decode(&[31373, 7, 999_999, 995], &vocab), b"hello( world".to_vec());
    assert_eq!(decode(&[999_999], &vocab), Vec::<u8>::new());
    assert_eq!(unknown_ids(&[31373, 7, 999_999, 995, 4_000_000], &vocab), vec![2, 4]);
    assert_eq!(unknown_ids(&[31373, 995], &vocab), Vec::<usize>::new());
    assert_eq!(decode(&[], &vocab), Vec::<u8>::new());
}

#[test]
fn decode_keeps_bytes_outside_the_alphabet() {
    let entries = {
        let mut e = byte_tokens();
        e.push(("a b".as_bytes().to_vec(), 300));
        e
    };
    let vocab = Vocabulary::new(entries).unwrap();
    assert_eq!(decode(&[300], &vocab), b"a b".to_vec());
}

#[test]
fn visible_map_is_a_bijection() {
    let mut seen = std::collections::BTreeSet::new();
    for b in 0..=255u8 {
        let v = to_visible(b);
        assert_eq!(to_byte(&v), Some(b));
        let c = std::str::from_utf8(&v).unwrap().chars().next().unwrap();
        assert!(!c.is_whitespace() && !c.is_control());
        seen.insert(v);
    }
    assert_eq!(seen.len(), 256);
    assert_eq!(to_visible(b' '), "Ġ".as_bytes().to_vec());
    assert_eq!(to_visible(0), "\u{100}".as_bytes().to_vec());
    assert_eq!(to_visible(0x7f), "\u{121}".as_bytes().to_vec());
    assert_eq!(to_visible(0xad), "\u{143}".as_bytes().to_vec());
    assert_eq!(to_visible(b'A'), b"A".to_vec());
    assert_eq!(to_visible(0xe9), "é".as_bytes().to_vec());
}

#[test]
fn to_byte_rejects_other_scalars() {
    assert_eq!(to_byte(b" "), None);
    assert_eq!(to_byte("\u{144}".as_bytes()), None);
    assert_eq!(to_byte("\u{a0}".as_bytes()), None);
    assert_eq!(to_byte(b""), None);
    assert_eq!(to_byte(b"ab"), None);
}

#[test]
fn pretokenize_covers_input_in_order() {
    let inputs: [&[u8]; 5] = [
        b"",
        b"it's 42 o'clock,  friends!\n",
        "héllo wörld 👋".as_bytes(),
        b"a\xffb",
        b"   ",
    ];
    for s in inputs {
        let spans = pretokenize(s);
        let mut pos = 0;
        for &(a, b) in &spans {
            assert_eq!(a, pos);
            assert!(a < b);
            pos = b;
        }
        assert_eq!(pos, s.len());
        assert_eq!(chunks(s).concat(), s.to_vec());
    }
    assert_eq!(
        chunks(b"it's 42 o'clock"),
        vec![b"it".to_vec(), b"'s".to_vec(), b" 42".to_vec(), b" o".to_vec(), b"'".to_vec(), b"clock".to_vec()]
    );
    assert_eq!(chunks(b"we'll go"), vec![b"we".to_vec(), b"'ll".to_vec(), b" go".to_vec()]);
    assert_eq!(chunks(b"a\xffb"), vec![b"a".to_vec(), b"\xff".to_vec(), b"b".to_vec()]);
}

#[test]
fn merge_rounds_shrink() {
    let merges = MergeTable::new(vec![(b"aa".to_vec(), 1), (b"ab".to_vec(), 0), (b"aaa".to_vec(), 2)]);
    let mut enc = BytePairEncoder::new(gpt_bpe::codec::grapheme(b"aaab"));
    assert!(enc.step(&merges));
    assert_eq!(enc.symbols().clone(), vec![b"a".to_vec(), b"a".to_vec(), b"ab".to_vec()]);
    assert!(enc.step(&merges));
    assert_eq!(enc.symbols().clone(), vec![b"aa".to_vec(), b"ab".to_vec()]);
    assert!(!enc.step(&merges));
    assert_eq!(enc.symbols().len(), 2);
}

#[test]
fn merge_pass_does_not_overlap() {
    let merges = MergeTable::new(vec![(b"aa".to_vec(), 0)]);
    let mut enc = BytePairEncoder::new(gpt_bpe::codec::grapheme(b"aaa"));
    assert!(enc.step(&merges));
    assert_eq!(enc.symbols().clone(), vec![b"aa".to_vec(), b"a".to_vec()]);
    let enc = BytePairEncoder::new(gpt_bpe::codec::grapheme(b"aaaa"));
    assert_eq!(enc.merge_all(&merges), vec![b"aa".to_vec(), b"aa".to_vec()]);
    let none = MergeTable::new(vec![]);
    let enc = BytePairEncoder::new(gpt_bpe::codec::grapheme(b"xyz"));
    assert_eq!(enc.merge_all(&none), gpt_bpe::codec::grapheme(b"xyz"));
}

#[test]
fn merge_ties_pick_the_leftmost_pair() {
    let merges = MergeTable::new(vec![(b"xy".to_vec(), 3), (b"yz".to_vec(), 3)]);
    let mut enc = BytePairEncoder::new(gpt_bpe::codec::grapheme(b"xyz"));
    assert!(enc.step(&merges));
    assert_eq!(enc.symbols().clone(), vec![b"xy".to_vec(), b"z".to_vec()]);
}

#[test]
fn encode_falls_back_to_bytes_when_merged_symbol_is_unknown() {
    let vocab = p50k_tokens();
    let merges = MergeTable::new(vec![(b"xy".to_vec(), 0)]);
    let ids = gpt_bpe::codec::encode(b"xy", &vocab, &merges);
    assert_eq!(ids, vec![87, 88]);
    assert_eq!(decode(&ids, &vocab), b"xy".to_vec());
}

#[test]
fn encode_is_deterministic_and_round_trips() {
    let vocab = p50k_tokens();
    let merges = p50k_merges();
    let texts: [&[u8]; 4] = [b"", b"a  b\t\nc", "naïve café ≠ 42".as_bytes(), b"\x00\x01\xfe\xff"];
    for t in texts {
        let a = gpt_bpe::codec::encode(t, &vocab, &merges);
        let b = gpt_bpe::codec::encode(t, &vocab, &merges);
        assert_eq!(a, b);
        assert_eq!(decode(&a, &vocab), t.to_vec());
    }
}

#[test]
fn vocabulary_rejects_duplicate_ids() {
    let mut entries = byte_tokens();
    entries.push((b"ab".to_vec(), 5));
    assert_eq!(Vocabulary::new(entries).err(), Some(VocabError::DuplicateId(5)));
}

#[test]
fn vocabulary_rejects_missing_bytes() {
    let mut entries = byte_tokens();
    entries.retain(|(k, _)| k != &to_visible(b' '));
    assert_eq!(Vocabulary::new(entries).err(), Some(VocabError::MissingByte(b' ')));
    assert_eq!(Vocabulary::new(vec![]).err(), Some(VocabError::MissingByte(0)));
}

#[test]
fn vocabulary_lookups() {
    let vocab = p50k_tokens();
    assert_eq!(vocab.token_id("\u{120}world".as_bytes()), Some(995));
    assert_eq!(vocab.token_id(b"world"), None);
    let mut out = b"x".to_vec();
    assert!(vocab.append_symbol(31373, &mut out));
    assert_eq!(out, b"xhello".to_vec());
    assert!(!vocab.append_symbol(999_999, &mut out));
    assert_eq!(out, b"xhello".to_vec());
}

#[test]
fn merge_ranks_from_lines() {
    let table = MergeTable::from_lines(vec![b"ab".to_vec(), b"cd".to_vec()]).unwrap();
    assert_eq!(table.rank(b"a", b"b"), Some(50000));
    assert_eq!(table.rank(b"c", b"d"), Some(49999));
    assert_eq!(table.rank(b"", b"cd"), Some(49999));
    assert_eq!(table.rank(b"b", b"c"), None);
    assert!(MergeTable::from_lines(vec![Vec::new(); 50002]).is_none());
    assert!(MergeTable::from_lines(vec![Vec::new(); 50001]).is_some());
}

fn json_line(entries: &[(Vec<u8>, u32)]) -> String {
    let parts: Vec<String> = entries
        .iter()
        .map(|(k, v)| format!("{}: {}", serde_json::to_string(std::str::from_utf8(k).unwrap()).unwrap(), v))
        .collect();
    format!("{{{}}}", parts.join(", "))
}

#[test]
fn vocabulary_from_json_lines() {
    let tokens = byte_tokens();
    let mut lines: Vec<String> = tokens.chunks(100).map(json_line).collect();
    lines.push(json_line(&[("\u{120}world".as_bytes().to_vec(), 995), (b"hello".to_vec(), 31373)]));
    let vocab = Vocabulary::from_json_lines(&lines).unwrap();
    assert_eq!(vocab.token_id(b"hello"), Some(31373));
    assert_eq!(vocab.token_id(&to_visible(0)), Some(188));
    assert_eq!(decode(&[31373, 995], &vocab), b"hello world".to_vec());

    let mut bad = lines.clone();
    bad.insert(1, "not json".to_string());
    assert_eq!(Vocabulary::from_json_lines(&bad).err(), Some(LoadError::BadLine(1)));

    let short = vec![json_line(&tokens[..10])];
    assert_eq!(
        Vocabulary::from_json_lines(&short).err(),
        Some(LoadError::Invalid(VocabError::MissingByte(0)))
    );
}
