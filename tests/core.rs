use tikv_service::cluster::{valid_address, Cluster};
use tikv_service::cmd::{Config, ConfigCommandCtx, Expire, Hdel, Llen, Sismember, Zcard, Hincrby, Lrange, Parse, ParseError, Scan, Zrem};
use tikv_service::encoding::{DataType, KeyDecoder, KeyEncoder};
use tikv_service::frame::{format_i64, parse_i64, parse_u64, Frame};
use tikv_service::hash::HashCommandCtx;
use tikv_service::list::ListCommandCtx;
use tikv_service::record::{delete_key, CmdError};
use tikv_service::set::SetCommandCtx;
use tikv_service::store::TxnBuffer;
use tikv_service::string::StringCommandCtx;
use tikv_service::zset::ZsetCommandCtx;
use tikv_service::txn_scope::{next_action, ScopeAction, TxnOutcome, MAX_ATTEMPTS};

fn addrs(list: &[&str]) -> Vec<String> {
    list.iter().map(|s| s.to_string()).collect()
}

fn strings(list: &[&str]) -> Vec<String> {
    addrs(list)
}

#[test]
fn three_nodes_partition_the_slot_space() {
    let mut c = Cluster::build_myself("10.0.0.1:7000");
    c.update_topo(&addrs(&["10.0.0.1:7000", "10.0.0.2:7000", "10.0.0.3:7000"]), "10.0.0.1:7000");
    let ranges: Vec<(usize, usize)> = c.nodes().iter().map(|n| (n.slot_start(), n.slot_end())).collect();
    assert_eq!(ranges, vec![(0, 5460), (5461, 10921), (10922, 16383)]);
    assert_eq!(c.nodes()[0].id(), "2c49bceae3b0d01c9b0fbc1e78cfff0d175b9b29");
    assert_eq!(c.nodes()[1].id(), "9d0ccb52dab2562ed5e6da6e3acf7c77c77ce555");
    assert_eq!(c.nodes()[2].id(), "ebd5aa0d6fca60b6696c92f4dab2f1e632e66989");
    assert_eq!(c.nodes()[0].ip(), "10.0.0.1");
    assert_eq!(c.nodes()[0].port(), 7000);
    assert!(c.nodes()[0].is_myself());
    assert!(!c.nodes()[1].is_myself());
    assert_eq!(c.myself_owned_slots(), Some((0, 5460)));
}

#[test]
fn rebuild_is_independent_of_input_order() {
    let mut a = Cluster::build_myself("10.0.0.2:7000");
    a.update_topo(&addrs(&["10.0.0.1:7000", "10.0.0.2:7000", "10.0.0.3:7000"]), "10.0.0.2:7000");
    let mut b = Cluster::build_myself("10.0.0.2:7000");
    b.update_topo(&addrs(&["10.0.0.3:7000", "10.0.0.1:7000", "10.0.0.2:7000"]), "10.0.0.2:7000");
    let view = |c: &Cluster| -> Vec<(String, usize, usize)> {
        c.nodes().iter().map(|n| (n.id().to_string(), n.slot_start(), n.slot_end())).collect()
    };
    assert_eq!(view(&a), view(&b));
    assert_eq!(a.myself_owned_slots(), Some((5461, 10921)));
}

#[test]
fn single_node_owns_every_slot() {
    let c = Cluster::build_myself("127.0.0.1:6379");
    assert_eq!(c.myself_owned_slots(), Some((0, 16383)));
    let big = Cluster::build_myself("h:99999");
    assert_eq!(big.nodes()[0].port(), 99999);
    assert_eq!(c.nodes()[0].id(), "11eceb7f355c699a367c5f3e38ec19fca7318355");
}

#[test]
fn node_listing_and_summary_text() {
    let c = Cluster::build_myself("127.0.0.1:6379");
    let expected = "11eceb7f355c699a367c5f3e38ec19fca7318355 127.0.0.1:6379@0 myself,master - 0 0 0 connected 0-16383\r\n";
    assert_eq!(c.cluster_nodes(), Frame::Bulk(expected.as_bytes().to_vec()));
    let info = "cluster_state:ok\r\ncluster_slots_assigned:16384\r\ncluster_slots_ok:16384\r\ncluster_slots_pfail:0\r\ncluster_slots_fail:0\r\ncluster_known_nodes:1\r\ncluster_size:1\r\ncluster_current_epoch:1\r\ncluster_my_epoch:1\r\n";
    assert_eq!(c.cluster_info(), Frame::Bulk(info.as_bytes().to_vec()));
}

#[test]
fn slot_table_lists_each_range() {
    let c = Cluster::build_myself("127.0.0.1:6379");
    let expected = Frame::Array(vec![Frame::Array(vec![
        Frame::Integer(0),
        Frame::Integer(16383),
        Frame::Array(vec![
            Frame::Bulk(b"127.0.0.1".to_vec()),
            Frame::Integer(6379),
            Frame::Bulk(b"11eceb7f355c699a367c5f3e38ec19fca7318355".to_vec()),
        ]),
    ])]);
    assert_eq!(c.cluster_slots(), expected);
}

#[test]
fn member_change_is_detected_as_a_set() {
    let mut c = Cluster::build_myself("10.0.0.1:7000");
    c.update_topo(&addrs(&["10.0.0.1:7000", "10.0.0.2:7000"]), "10.0.0.1:7000");
    assert!(!c.cluster_member_changed(&addrs(&["10.0.0.2:7000", "10.0.0.1:7000"])));
    assert!(c.cluster_member_changed(&addrs(&["10.0.0.1:7000"])));
    assert!(c.cluster_member_changed(&addrs(&["10.0.0.1:7000", "10.0.0.3:7000"])));
}

#[test]
fn empty_cluster_has_no_local_range() {
    let c = Cluster::new(&[]);
    assert_eq!(c.myself_owned_slots(), None);
    assert_eq!(c.cluster_nodes(), Frame::Bulk(b"\r\n".to_vec()));
}

#[test]
fn address_validation() {
    assert!(valid_address("10.0.0.1:7000"));
    assert!(!valid_address("10.0.0.1"));
    assert!(!valid_address("10.0.0.1:http"));
    assert!(valid_address("10.0.0.1:70000"));
    assert!(valid_address("10.0.0.1:+7000"));
    assert!(!valid_address("10.0.0.1:18446744073709551616"));
}

#[test]
fn hash_scenario_set_increment_delete() {
    let mut buf = TxnBuffer::new();
    assert_eq!(HashCommandCtx::hset(&mut buf, b"k", b"f", b"1".to_vec()), Ok(true));
    assert_eq!(HashCommandCtx::hincrby(&mut buf, b"k", b"f", 5), Ok(6));
    assert_eq!(HashCommandCtx::hget(&buf, b"k", b"f"), Ok(Some(b"6".to_vec())));
    assert_eq!(HashCommandCtx::hdel(&mut buf, b"k", b"f"), Ok(true));
    assert_eq!(HashCommandCtx::hget(&buf, b"k", b"f"), Ok(None));
}

#[test]
fn increments_add_up() {
    let mut buf = TxnBuffer::new();
    assert_eq!(HashCommandCtx::hincrby(&mut buf, b"k", b"n", 3), Ok(3));
    assert_eq!(HashCommandCtx::hincrby(&mut buf, b"k", b"n", -10), Ok(-7));
    assert_eq!(HashCommandCtx::hincrby(&mut buf, b"k", b"n", 100), Ok(93));
    assert_eq!(HashCommandCtx::hget(&buf, b"k", b"n"), Ok(Some(b"93".to_vec())));
}

#[test]
fn increment_errors() {
    let mut buf = TxnBuffer::new();
    HashCommandCtx::hset(&mut buf, b"k", b"s", b"abc".to_vec()).unwrap();
    assert_eq!(HashCommandCtx::hincrby(&mut buf, b"k", b"s", 1), Err(CmdError::NotInteger));
    HashCommandCtx::hset(&mut buf, b"k", b"big", b"9223372036854775807".to_vec()).unwrap();
    assert_eq!(HashCommandCtx::hincrby(&mut buf, b"k", b"big", 1), Err(CmdError::Overflow));
}

#[test]
fn removing_last_field_deletes_the_key() {
    let mut buf = TxnBuffer::new();
    HashCommandCtx::hset(&mut buf, b"k", b"a", b"1".to_vec()).unwrap();
    HashCommandCtx::hset(&mut buf, b"k", b"b", b"2".to_vec()).unwrap();
    assert_eq!(HashCommandCtx::hlen(&buf, b"k"), Ok(2));
    HashCommandCtx::hdel(&mut buf, b"k", b"a").unwrap();
    assert!(buf.get(&KeyEncoder::encode_meta_key(b"k")).is_some());
    HashCommandCtx::hdel(&mut buf, b"k", b"b").unwrap();
    assert_eq!(buf.get(&KeyEncoder::encode_meta_key(b"k")), None);
    assert_eq!(HashCommandCtx::hlen(&buf, b"k"), Ok(0));
    // with the header gone the key may hold another type
    assert_eq!(SetCommandCtx::sadd(&mut buf, b"k", b"x"), Ok(true));
}

#[test]
fn removing_last_member_deletes_the_set() {
    let mut buf = TxnBuffer::new();
    assert_eq!(SetCommandCtx::sadd(&mut buf, b"s", b"a"), Ok(true));
    assert_eq!(SetCommandCtx::sadd(&mut buf, b"s", b"a"), Ok(false));
    assert_eq!(SetCommandCtx::scard(&buf, b"s"), Ok(1));
    assert_eq!(SetCommandCtx::sismember(&buf, b"s", b"a"), Ok(true));
    assert_eq!(SetCommandCtx::srem(&mut buf, b"s", b"a"), Ok(true));
    assert_eq!(SetCommandCtx::sismember(&buf, b"s", b"a"), Ok(false));
    assert_eq!(buf.get(&KeyEncoder::encode_meta_key(b"s")), None);
    assert_eq!(SetCommandCtx::srem(&mut buf, b"s", b"a"), Ok(false));
}

#[test]
fn recreated_key_shows_no_old_elements() {
    let mut buf = TxnBuffer::new();
    HashCommandCtx::hset(&mut buf, b"k", b"old", b"1".to_vec()).unwrap();
    assert!(delete_key(&mut buf, b"k"));
    assert_eq!(HashCommandCtx::hget(&buf, b"k", b"old"), Ok(None));
    HashCommandCtx::hset(&mut buf, b"k", b"new", b"2".to_vec()).unwrap();
    assert_eq!(HashCommandCtx::hget(&buf, b"k", b"old"), Ok(None));
    assert_eq!(HashCommandCtx::hlen(&buf, b"k"), Ok(1));

    ListCommandCtx::push(&mut buf, b"l", b"a".to_vec(), false).unwrap();
    delete_key(&mut buf, b"l");
    ListCommandCtx::push(&mut buf, b"l", b"b".to_vec(), false).unwrap();
    assert_eq!(ListCommandCtx::lrange(&buf, b"l", 0, -1), Ok(vec![b"b".to_vec()]));

    SetCommandCtx::sadd(&mut buf, b"s", b"a").unwrap();
    delete_key(&mut buf, b"s");
    SetCommandCtx::sadd(&mut buf, b"s", b"b").unwrap();
    assert_eq!(SetCommandCtx::sismember(&buf, b"s", b"a"), Ok(false));
    assert_eq!(SetCommandCtx::scard(&buf, b"s"), Ok(1));

    ZsetCommandCtx::zadd(&mut buf, b"z", b"a", 1).unwrap();
    delete_key(&mut buf, b"z");
    ZsetCommandCtx::zadd(&mut buf, b"z", b"b", 2).unwrap();
    assert_eq!(ZsetCommandCtx::zscore(&buf, b"z", b"a"), Ok(None));
    assert_eq!(ZsetCommandCtx::zcard(&buf, b"z"), Ok(1));
}

#[test]
fn wrong_type_is_an_error() {
    let mut buf = TxnBuffer::new();
    SetCommandCtx::sadd(&mut buf, b"k", b"a").unwrap();
    assert_eq!(HashCommandCtx::hget(&buf, b"k", b"a"), Err(CmdError::WrongType));
    assert_eq!(ListCommandCtx::llen(&buf, b"k"), Err(CmdError::WrongType));
    assert_eq!(ZsetCommandCtx::zcard(&buf, b"k"), Err(CmdError::WrongType));
}

#[test]
fn corrupt_header_is_an_error() {
    let mut buf = TxnBuffer::new();
    buf.put(KeyEncoder::encode_meta_key(b"k"), vec![1, 2, 3]);
    assert_eq!(HashCommandCtx::hget(&buf, b"k", b"a"), Err(CmdError::Corrupt));
    buf.put(KeyEncoder::encode_meta_key(b"k"), vec![9]);
    assert_eq!(HashCommandCtx::hget(&buf, b"k", b"a"), Err(CmdError::Corrupt));
}

#[test]
fn zset_last_write_wins() {
    let mut buf = TxnBuffer::new();
    assert_eq!(ZsetCommandCtx::zadd(&mut buf, b"z", b"m", 10), Ok(true));
    assert_eq!(ZsetCommandCtx::zadd(&mut buf, b"z", b"m", 20), Ok(false));
    assert_eq!(ZsetCommandCtx::zscore(&buf, b"z", b"m"), Ok(Some(20)));
    assert_eq!(ZsetCommandCtx::zcard(&buf, b"z"), Ok(1));
}

#[test]
fn zset_indexes_move_together() {
    let mut buf = TxnBuffer::new();
    ZsetCommandCtx::zadd(&mut buf, b"z", b"a", -5).unwrap();
    ZsetCommandCtx::zadd(&mut buf, b"z", b"b", 7).unwrap();
    ZsetCommandCtx::zadd(&mut buf, b"z", b"a", 3).unwrap();
    // generation 0 is the first one handed out for "z"
    let score_key = |s: i64, m: &[u8]| KeyEncoder::encode_zset_score_key(b"z", 0, s, m);
    assert!(buf.get(&score_key(3, b"a")).is_some());
    assert!(buf.get(&score_key(-5, b"a")).is_none());
    assert!(buf.get(&score_key(7, b"b")).is_some());
    assert_eq!(ZsetCommandCtx::zrem(&mut buf, b"z", b"a"), Ok(true));
    assert!(buf.get(&score_key(3, b"a")).is_none());
    assert_eq!(ZsetCommandCtx::zscore(&buf, b"z", b"a"), Ok(None));
    assert_eq!(ZsetCommandCtx::zrem(&mut buf, b"z", b"b"), Ok(true));
    assert!(buf.get(&score_key(7, b"b")).is_none());
    assert_eq!(buf.get(&KeyEncoder::encode_meta_key(b"z")), None);
}

#[test]
fn list_length_tracks_pushes_and_pops() {
    let mut buf = TxnBuffer::new();
    assert_eq!(ListCommandCtx::push(&mut buf, b"l", b"a".to_vec(), false), Ok(1));
    assert_eq!(ListCommandCtx::push(&mut buf, b"l", b"b".to_vec(), false), Ok(2));
    assert_eq!(ListCommandCtx::push(&mut buf, b"l", b"c".to_vec(), false), Ok(3));
    assert_eq!(ListCommandCtx::push(&mut buf, b"l", b"z".to_vec(), true), Ok(4));
    assert_eq!(ListCommandCtx::llen(&buf, b"l"), Ok(4));
    assert_eq!(ListCommandCtx::pop(&mut buf, b"l", true), Ok(Some(b"z".to_vec())));
    assert_eq!(ListCommandCtx::pop(&mut buf, b"l", true), Ok(Some(b"a".to_vec())));
    assert_eq!(ListCommandCtx::llen(&buf, b"l"), Ok(2));
    assert_eq!(
        ListCommandCtx::lrange(&buf, b"l", 0, -1),
        Ok(vec![b"b".to_vec(), b"c".to_vec()])
    );
    assert_eq!(ListCommandCtx::pop(&mut buf, b"l", false), Ok(Some(b"c".to_vec())));
    assert_eq!(ListCommandCtx::pop(&mut buf, b"l", false), Ok(Some(b"b".to_vec())));
    assert_eq!(ListCommandCtx::pop(&mut buf, b"l", false), Ok(None));
    assert_eq!(ListCommandCtx::llen(&buf, b"l"), Ok(0));
    assert_eq!(buf.get(&KeyEncoder::encode_meta_key(b"l")), None);
}

#[test]
fn list_range_offsets() {
    let mut buf = TxnBuffer::new();
    for v in [b"a", b"b", b"c", b"d"] {
        ListCommandCtx::push(&mut buf, b"l", v.to_vec(), false).unwrap();
    }
    assert_eq!(ListCommandCtx::lrange(&buf, b"l", 1, 2), Ok(vec![b"b".to_vec(), b"c".to_vec()]));
    assert_eq!(ListCommandCtx::lrange(&buf, b"l", -2, -1), Ok(vec![b"c".to_vec(), b"d".to_vec()]));
    assert_eq!(ListCommandCtx::lrange(&buf, b"l", -100, 0), Ok(vec![b"a".to_vec()]));
    assert_eq!(ListCommandCtx::lrange(&buf, b"l", 3, 100), Ok(vec![b"d".to_vec()]));
    assert_eq!(ListCommandCtx::lrange(&buf, b"l", 2, 1), Ok(vec![]));
    assert_eq!(ListCommandCtx::lrange(&buf, b"l", 4, 10), Ok(vec![]));
    assert_eq!(ListCommandCtx::lrange(&buf, b"missing", 0, -1), Ok(vec![]));
}

#[test]
fn header_decoding_checks_lengths() {
    assert_eq!(KeyDecoder::decode_key_type(&[]), None);
    assert_eq!(KeyDecoder::decode_key_type(&[4]), Some(DataType::Zset));
    assert_eq!(KeyDecoder::decode_key_type(&[7]), None);
    assert_eq!(KeyDecoder::decode_key_ttl(&[0, 0, 0]), None);
    assert_eq!(KeyDecoder::decode_key_ttl(&[0, 0, 0, 0, 0, 0, 0, 1, 2]), Some(258));
    assert_eq!(KeyDecoder::decode_key_version(&[0; 10]), None);
    assert_eq!(KeyDecoder::decode_topo_value(&[0, 0, 0, 0, 0, 0, 0, 9]), Some(9));
    assert_eq!(KeyDecoder::decode_topo_value(&[1]), None);
    assert_eq!(KeyDecoder::decode_topo_key_addr(b"topoaddr"), Some(b"addr".to_vec()));
    assert_eq!(KeyDecoder::decode_key_string_slice(&KeyEncoder::encode_string_value(5, b"hi")), Some(b"hi".to_vec()));
    assert_eq!(KeyDecoder::decode_key_zset_data_value(&[1, 2]), None);
    assert_eq!(KeyDecoder::decode_key_zset_data_value(&KeyEncoder::encode_score(-42)), Some(-42));
}

#[test]
fn header_round_trip() {
    let m = KeyEncoder::encode_meta(DataType::Hash, 77, 513, 3);
    assert_eq!(m.len(), 13);
    let d = KeyDecoder::decode_key_meta(&m).unwrap();
    assert_eq!((d.ttl, d.version, d.count), (77, 513, 3));
    assert_eq!(KeyDecoder::decode_key_index_size(&m), Some(3));
    assert_eq!(KeyDecoder::decode_key_version(&m), Some(513));
    let l = KeyEncoder::encode_list_meta(1, 2, 3, 4);
    let d = KeyDecoder::decode_key_list_meta(&l).unwrap();
    assert_eq!((d.ttl, d.version, d.head, d.tail), (1, 2, 3, 4));
    assert_eq!(KeyDecoder::decode_key_list_meta(&m), None);
    assert_eq!(KeyDecoder::decode_key_meta(&l), None);
    // the tag is the reader's to check: a 27-byte header of any tag decodes
    let mut other = l.clone();
    other[0] = 1;
    assert_eq!(KeyDecoder::decode_key_list_meta(&other).map(|d| d.tail), Some(4));
}

#[test]
fn score_bytes_order_as_scores() {
    let scores = [i64::MIN, -10, -1, 0, 1, 10, i64::MAX];
    for w in scores.windows(2) {
        assert!(KeyEncoder::encode_score(w[0]) < KeyEncoder::encode_score(w[1]));
    }
    assert_eq!(KeyEncoder::encode_score(0), vec![0x80, 0, 0, 0, 0, 0, 0, 0]);
}

#[test]
fn data_keys_are_prefixed_by_user_key() {
    let k = KeyEncoder::encode_data_key(b"ab", 1, b'h', b"f");
    assert_eq!(k, vec![b'x', b'D', 0, 0, 0, 0, 0, 0, 0, 2, b'a', b'b', 0, 1, b'h', b'f']);
    assert_eq!(KeyEncoder::encode_meta_key(b"ab"), vec![b'x', b'M', b'a', b'b']);
}

#[test]
fn integer_text() {
    assert_eq!(parse_i64(b"42"), Some(42));
    assert_eq!(parse_i64(b"-42"), Some(-42));
    assert_eq!(parse_i64(b"+7"), Some(7));
    assert_eq!(parse_i64(b"-9223372036854775808"), Some(i64::MIN));
    assert_eq!(parse_i64(b"9223372036854775808"), None);
    assert_eq!(parse_i64(b""), None);
    assert_eq!(parse_i64(b"-"), None);
    assert_eq!(parse_i64(b"1x"), None);
    assert_eq!(parse_u64(b"18446744073709551615"), Some(u64::MAX));
    assert_eq!(parse_u64(b"18446744073709551616"), None);
    assert_eq!(parse_u64(b"+12"), Some(12));
    assert_eq!(parse_u64(b"+"), None);
    assert_eq!(parse_u64(b"-1"), None);
    assert_eq!(format_i64(i64::MIN), b"-9223372036854775808".to_vec());
    assert_eq!(format_i64(0), b"0".to_vec());
}

#[test]
fn argument_cursor() {
    let mut p = Parse::new(strings(&["k", "12", "x"]));
    assert_eq!(p.next_string(), Ok("k".to_string()));
    assert_eq!(p.next_int(), Ok(12));
    assert_eq!(p.next_int(), Err(ParseError::NotInteger));
    assert_eq!(p.next_string(), Err(ParseError::EndOfStream));
}

#[test]
fn command_argument_checks() {
    let h = Hincrby::parse_argv(&strings(&["k", "f", "5"]));
    assert!(h.valid && h.step == 5 && h.key == "k" && h.field == "f");
    assert!(!Hincrby::parse_argv(&strings(&["k", "f", "five"])).valid);
    assert!(!Hincrby::parse_argv(&strings(&["k", "f"])).valid);
    let l = Lrange::parse_argv(&strings(&["k", "0", "-1"]));
    assert!(l.valid && l.left == 0 && l.right == -1);
    assert!(!Lrange::parse_argv(&strings(&["k", "0", "x"])).valid);
    let z = Zrem::parse_argv(&strings(&["z", "a", "b"]));
    assert!(z.valid && z.members == strings(&["a", "b"]));
    assert!(!Zrem::parse_argv(&strings(&["z"])).valid);
    let mut p = Parse::new(strings(&["z", "a", "b"]));
    let z = Zrem::parse_frames(&mut p).unwrap();
    assert_eq!(z.members, strings(&["a", "b"]));
}

#[test]
fn scan_options() {
    let s = Scan::parse_argv(&strings(&["0"]));
    assert!(s.valid && s.count == 10 && s.regex == ".*?");
    let s = Scan::parse_argv(&strings(&["0", "count", "5", "MATCH", "a*"]));
    assert!(s.valid && s.count == 5 && s.regex == "a*");
    assert!(!Scan::parse_argv(&strings(&["0", "COUNT", "x"])).valid);
    assert!(!Scan::parse_argv(&strings(&["0", "LIMIT", "5"])).valid);
    assert!(!Scan::parse_argv(&strings(&[])).valid);
    assert!(!Scan::parse_argv(&strings(&["0", "COUNT"])).valid);
    assert!(!Scan::parse_argv(&strings(&["0", "COUNT", "5", "MATCH"])).valid);
    assert!(Scan::parse_argv(&strings(&["0", "MATCH", "x"])).valid);
}

#[test]
fn config_replies() {
    let r = ConfigCommandCtx::new().do_async_rawkv_get("GET", "Save");
    assert_eq!(
        r,
        Frame::Array(vec![
            Frame::Simple("save".to_string()),
            Frame::Bulk(b"3600 1 300 100 60 10000".to_vec())
        ])
    );
    let r = ConfigCommandCtx::new().do_async_rawkv_get("get", "appendonly");
    assert_eq!(r, Frame::Array(vec![Frame::Simple("appendonly".to_string()), Frame::Simple("no".to_string())]));
    let r = ConfigCommandCtx::new().do_async_rawkv_get("set", "save");
    assert_eq!(r, Frame::Error("ERR not supported".to_string()));
    assert_eq!(Config::new_invalid().config(true), Err(CmdError::InvalidArguments));
    assert_eq!(Config::new("get", "*").config(false), Err(CmdError::NotSupported));
}

#[test]
fn commands_reply_with_frames() {
    let mut buf = TxnBuffer::new();
    let h = Hincrby::new("k", "f", 4);
    assert_eq!(h.hincrby(&mut buf, true), Ok(Frame::Integer(4)));
    let mut z = Zrem::new("z");
    ZsetCommandCtx::zadd(&mut buf, b"z", b"a", 1).unwrap();
    ZsetCommandCtx::zadd(&mut buf, b"z", b"b", 2).unwrap();
    z.add_member("a");
    z.add_member("a");
    z.add_member("c");
    assert_eq!(z.zrem(&mut buf, true), Ok(Frame::Integer(1)));
    assert_eq!(ZsetCommandCtx::zcard(&buf, b"z"), Ok(1));
}

#[test]
fn buffer_reports_its_writes() {
    let mut buf = TxnBuffer::new();
    buf.load(b"a".to_vec(), b"1".to_vec());
    buf.load(b"b".to_vec(), b"2".to_vec());
    buf.put(b"a".to_vec(), b"3".to_vec());
    buf.delete(b"b");
    let mut w = buf.writes();
    w.sort();
    assert_eq!(w, vec![(b"a".to_vec(), Some(b"3".to_vec())), (b"b".to_vec(), None)]);
}

#[test]
fn rank_counts_members_before() {
    let mut buf = TxnBuffer::new();
    ZsetCommandCtx::zadd(&mut buf, b"z", b"c", 5).unwrap();
    ZsetCommandCtx::zadd(&mut buf, b"z", b"a", 5).unwrap();
    ZsetCommandCtx::zadd(&mut buf, b"z", b"b", -1).unwrap();
    ZsetCommandCtx::zadd(&mut buf, b"z", b"d", 9).unwrap();
    assert_eq!(ZsetCommandCtx::zrank(&buf, b"z", b"b"), Ok(Some(0)));
    assert_eq!(ZsetCommandCtx::zrank(&buf, b"z", b"a"), Ok(Some(1)));
    assert_eq!(ZsetCommandCtx::zrank(&buf, b"z", b"c"), Ok(Some(2)));
    assert_eq!(ZsetCommandCtx::zrank(&buf, b"z", b"d"), Ok(Some(3)));
    assert_eq!(ZsetCommandCtx::zrank(&buf, b"z", b"x"), Ok(None));
    assert_eq!(ZsetCommandCtx::zrank(&buf, b"nokey", b"x"), Ok(None));
    let cmd = tikv_service::cmd::Zrank::new("z", "d");
    assert_eq!(cmd.zrank(&buf, true), Ok(Frame::Integer(3)));
    let cmd = tikv_service::cmd::Zrank::new("z", "x");
    assert_eq!(cmd.zrank(&buf, true), Ok(Frame::Null));
}

#[test]
fn data_key_parts_decode() {
    let k = KeyEncoder::encode_data_key(b"user", 3, b'h', b"field");
    assert_eq!(KeyDecoder::decode_key_hash_userkey_from_datakey(b"user", &k), Some(b"field".to_vec()));
    let k = KeyEncoder::encode_data_key(b"s", 0, b's', b"mem");
    assert_eq!(KeyDecoder::decode_key_set_member_from_datakey(b"s", &k), Some(b"mem".to_vec()));
    let k = KeyEncoder::encode_zset_score_key(b"z", 1, -77, b"m1");
    assert_eq!(KeyDecoder::decode_key_zset_score_from_scorekey(b"z", &k), Some(-77));
    assert_eq!(KeyDecoder::decode_key_zset_member_from_scorekey(b"z", &k), Some(b"m1".to_vec()));
    assert_eq!(KeyDecoder::decode_key_zset_member_from_datakey(b"a-much-longer-user-key", &k), None);
}

#[test]
fn scan_frames_options() {
    let mut p = Parse::new(strings(&["0", "MATCH", "k*", "junk", "COUNT", "3"]));
    let s = Scan::parse_frames(&mut p).unwrap();
    assert!(s.valid && s.count == 3 && s.regex == "k*" && s.start == "0");
    let mut p = Parse::new(strings(&["0", "COUNT", "x"]));
    let s = Scan::parse_frames(&mut p).unwrap();
    assert_eq!(s.count, 10);
    let mut p = Parse::new(strings(&["0", "MATCH"]));
    assert!(Scan::parse_frames(&mut p).is_err());
}

#[test]
fn scope_retries_only_its_own_conflicts() {
    assert_eq!(next_action(false, 0, TxnOutcome::Conflict), ScopeAction::Retry);
    assert_eq!(next_action(false, MAX_ATTEMPTS - 1, TxnOutcome::Conflict), ScopeAction::GiveUp);
    assert_eq!(next_action(true, 0, TxnOutcome::Conflict), ScopeAction::GiveUp);
    assert_eq!(next_action(false, 0, TxnOutcome::Committed), ScopeAction::Finish);
    assert_eq!(next_action(false, 0, TxnOutcome::Failed), ScopeAction::Finish);
}

#[test]
fn string_set_get_and_recreate() {
    let mut buf = TxnBuffer::new();
    assert_eq!(StringCommandCtx::get(&buf, b"s"), Ok(None));
    StringCommandCtx::set(&mut buf, b"s", b"one");
    assert_eq!(StringCommandCtx::get(&buf, b"s"), Ok(Some(b"one".to_vec())));
    assert!(delete_key(&mut buf, b"s"));
    assert_eq!(StringCommandCtx::get(&buf, b"s"), Ok(None));
    StringCommandCtx::set(&mut buf, b"s", b"two");
    assert_eq!(StringCommandCtx::get(&buf, b"s"), Ok(Some(b"two".to_vec())));
    // a String over a hash hides the hash's fields
    HashCommandCtx::hset(&mut buf, b"h", b"f", b"1".to_vec()).unwrap();
    StringCommandCtx::set(&mut buf, b"h", b"v");
    assert_eq!(HashCommandCtx::hget(&buf, b"h", b"f"), Err(CmdError::WrongType));
    assert!(delete_key(&mut buf, b"h"));
    HashCommandCtx::hset(&mut buf, b"h", b"g", b"2".to_vec()).unwrap();
    assert_eq!(HashCommandCtx::hget(&buf, b"h", b"f"), Ok(None));
    assert_eq!(StringCommandCtx::get(&buf, b"h"), Err(CmdError::WrongType));
}

#[test]
fn exhausted_generations_refuse_a_new_record() {
    let mut buf = TxnBuffer::new();
    buf.put(tikv_service::record::gen_key_of(b"k"), vec![0xff, 0xff]);
    assert_eq!(
        HashCommandCtx::hset(&mut buf, b"k", b"f", b"1".to_vec()),
        Err(CmdError::VersionsExhausted)
    );
    assert_eq!(HashCommandCtx::hget(&buf, b"k", b"f"), Ok(None));
    assert_eq!(tikv_service::txn_scope::give_up_error(), CmdError::TransientConflict);
    assert_eq!(CmdError::WrongType.message(), "WRONGTYPE Operation against a key holding the wrong kind of value");
}

#[test]
fn expire_sets_or_deletes() {
    let mut buf = TxnBuffer::new();
    HashCommandCtx::hset(&mut buf, b"k", b"f", b"1".to_vec()).unwrap();
    assert_eq!(Expire::new("k", 10).expire(&mut buf, 1_000), Ok(Frame::Integer(1)));
    let header = buf.get(&KeyEncoder::encode_meta_key(b"k")).unwrap();
    assert_eq!(KeyDecoder::decode_key_ttl(&header), Some(11_000));
    assert_eq!(HashCommandCtx::hget(&buf, b"k", b"f"), Ok(Some(b"1".to_vec())));
    assert_eq!(Expire::new("missing", 10).expire(&mut buf, 1_000), Ok(Frame::Integer(0)));
    assert_eq!(Expire::new("k", i64::MAX).expire(&mut buf, 1_000), Err(CmdError::Overflow));
    assert_eq!(Expire::new("k", 0).expire(&mut buf, 1_000), Ok(Frame::Integer(1)));
    assert_eq!(HashCommandCtx::hget(&buf, b"k", b"f"), Ok(None));
}

#[test]
fn command_values_reply() {
    let mut buf = TxnBuffer::new();
    HashCommandCtx::hset(&mut buf, b"h", b"f", b"1".to_vec()).unwrap();
    assert_eq!(Hdel::new("h", "f").hdel(&mut buf, true), Ok(Frame::Integer(1)));
    assert_eq!(Hdel::new("h", "f").hdel(&mut buf, true), Ok(Frame::Integer(0)));
    assert_eq!(Hdel::new_invalid().hdel(&mut buf, true), Err(CmdError::InvalidArguments));
    SetCommandCtx::sadd(&mut buf, b"s", b"m").unwrap();
    assert_eq!(Sismember::new("s", "m").sismember(&buf, true), Ok(Frame::Integer(1)));
    assert_eq!(Sismember::new("s", "x").sismember(&buf, false), Err(CmdError::NotSupported));
    ListCommandCtx::push(&mut buf, b"l", b"a".to_vec(), false).unwrap();
    ListCommandCtx::push(&mut buf, b"l", b"b".to_vec(), false).unwrap();
    assert_eq!(Llen::new("l").llen(&buf, true), Ok(Frame::Integer(2)));
    assert_eq!(
        Lrange::new("l", 0, -1).lrange(&buf, true),
        Ok(Frame::Array(vec![Frame::Bulk(b"a".to_vec()), Frame::Bulk(b"b".to_vec())]))
    );
    ZsetCommandCtx::zadd(&mut buf, b"z", b"m", 1).unwrap();
    assert_eq!(Zcard::new("z").zcard(&buf, true), Ok(Frame::Integer(1)));
    assert_eq!(Zcard::new("s").zcard(&buf, true), Err(CmdError::WrongType));
}

#[test]
fn thirteen_byte_collection_header() {
    let v = [1, 0, 0, 0, 0, 0, 0, 0, 42, 0, 3, 0, 7];
    let m = KeyDecoder::decode_key_meta(&v).unwrap();
    assert_eq!((m.ttl, m.version, m.count), (42, 3, 7));
    assert_eq!(KeyDecoder::decode_key_index_size(&v), Some(7));
    assert_eq!(KeyDecoder::decode_key_index_size(&v[..12]), None);
    assert_eq!(KeyEncoder::encode_meta(DataType::Hash, 42, 3, 7), v.to_vec());
}

#[test]
fn increment_after_recreate_starts_from_zero() {
    let mut buf = TxnBuffer::new();
    HashCommandCtx::hset(&mut buf, b"k", b"f", b"100".to_vec()).unwrap();
    delete_key(&mut buf, b"k");
    HashCommandCtx::hset(&mut buf, b"k", b"g", b"x".to_vec()).unwrap();
    assert_eq!(Hincrby::new("k", "f", 7).hincrby(&mut buf, true), Ok(Frame::Integer(7)));
    assert_eq!(HashCommandCtx::hget(&buf, b"k", b"f"), Ok(Some(b"7".to_vec())));
}

#[test]
fn hdel_of_last_field_then_hget_is_null() {
    let mut buf = TxnBuffer::new();
    HashCommandCtx::hset(&mut buf, b"k", b"f", b"1".to_vec()).unwrap();
    assert_eq!(Hincrby::new("k", "f", 5).hincrby(&mut buf, true), Ok(Frame::Integer(6)));
    assert_eq!(Hdel::new("k", "f").hdel(&mut buf, true), Ok(Frame::Integer(1)));
    assert_eq!(HashCommandCtx::hget(&buf, b"k", b"f"), Ok(None));
    assert_eq!(buf.get(&KeyEncoder::encode_meta_key(b"k")), None);
    let before = buf.writes();
    assert_eq!(Hdel::new("k", "f").hdel(&mut buf, true), Ok(Frame::Integer(0)));
    assert_eq!(buf.writes(), before);
    let inv = Hdel::new_invalid();
    assert!(inv.key.is_empty() && inv.field.is_empty() && !inv.valid);
}

#[test]
fn scan_limit_and_key_tails() {
    assert_eq!(Scan::new("0".to_string(), 5, "*".to_string()).scan_limit(true), Ok(5));
    assert_eq!(Scan::new("0".to_string(), -1, "*".to_string()).scan_limit(true), Err(CmdError::InvalidArguments));
    assert_eq!(Scan::new_invalid().scan_limit(true), Err(CmdError::InvalidArguments));
    assert_eq!(Scan::new("0".to_string(), 5, "*".to_string()).scan_limit(false), Err(CmdError::NotSupported));
    assert_eq!(KeyDecoder::decode_string(&[0u8; 16]), Some(vec![0]));
    assert_eq!(KeyDecoder::decode_string(&[0u8; 14]), None);
    let p = KeyEncoder::encode_generation_prefix(b"ab", 2);
    assert!(KeyEncoder::encode_data_key(b"ab", 2, b'h', b"f").starts_with(&p));
    assert!(!KeyEncoder::encode_data_key(b"ab", 1, b'h', b"f").starts_with(&p));
}

#[test]
fn zrem_of_last_member_drops_both_entries() {
    let mut buf = TxnBuffer::new();
    ZsetCommandCtx::zadd(&mut buf, b"z", b"a", 4).unwrap();
    let mut z = Zrem::new("z");
    z.add_member("a");
    assert_eq!(z.zrem(&mut buf, true), Ok(Frame::Integer(1)));
    assert_eq!(buf.get(&KeyEncoder::encode_data_key(b"z", 0, b'z', b"a")), None);
    assert_eq!(buf.get(&KeyEncoder::encode_zset_score_key(b"z", 0, 4, b"a")), None);
    assert_eq!(buf.get(&KeyEncoder::encode_meta_key(b"z")), None);
}
