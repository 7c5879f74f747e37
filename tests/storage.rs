use rustkv::codec::{decode_line, encode_line, is_storable};
use rustkv::command_log::LogLine;
use rustkv::options::log_file_name;
use rustkv::session::get_reply;
use rustkv::{Command, CommandLog, KV};

fn put(k: &str, v: &str) -> Command {
    Command::Put { key: k.to_string(), value: v.to_string() }
}

fn del(k: &str) -> Command {
    Command::Delete { key: k.to_string() }
}

fn get<'a>(kv: &'a KV, k: &str) -> Option<&'a String> {
    kv.get(&k.to_string())
}

#[test]
fn store_set_get_del() {
    let mut kv = KV::new(Vec::new());
    assert_eq!(get(&kv, "a"), None);
    kv.set("a".to_string(), "1".to_string());
    kv.set("b".to_string(), "2".to_string());
    kv.set("a".to_string(), "3".to_string());
    assert_eq!(get(&kv, "a").map(|s| s.as_str()), Some("3"));
    assert_eq!(get(&kv, "b").map(|s| s.as_str()), Some("2"));
    kv.del(&"a".to_string());
    assert_eq!(get(&kv, "a"), None);
    kv.del(&"never".to_string());
    assert_eq!(kv.snapshot(), vec![("b".to_string(), "2".to_string())]);
}

#[test]
fn store_new_later_pair_wins() {
    let kv = KV::new(vec![
        ("k".to_string(), "old".to_string()),
        ("j".to_string(), "x".to_string()),
        ("k".to_string(), "new".to_string()),
    ]);
    assert_eq!(get(&kv, "k").map(|s| s.as_str()), Some("new"));
    assert_eq!(kv.snapshot().len(), 2);
}

#[test]
fn snapshot_rebuilds_the_same_store() {
    let mut kv = KV::new(Vec::new());
    kv.set("x".to_string(), "1".to_string());
    kv.set("y".to_string(), "2".to_string());
    let copy = KV::new(kv.snapshot());
    assert_eq!(copy.snapshot(), kv.snapshot());
}

#[test]
fn load_snapshot_keeps_other_keys() {
    let mut kv = KV::new(vec![("mine".to_string(), "1".to_string())]);
    kv.load_snapshot(vec![("theirs".to_string(), "2".to_string()), ("mine".to_string(), "3".to_string())]);
    assert_eq!(get(&kv, "mine").map(|s| s.as_str()), Some("3"));
    assert_eq!(get(&kv, "theirs").map(|s| s.as_str()), Some("2"));
}

#[test]
fn apply_puts_and_deletes() {
    let mut kv = KV::new(Vec::new());
    kv.apply(&put("a", "1"));
    kv.apply(&del("a"));
    kv.apply(&put("b", "2"));
    assert_eq!(kv.snapshot(), vec![("b".to_string(), "2".to_string())]);
}

#[test]
fn encode_exact_lines() {
    assert_eq!(encode_line(7, &put("foo", "bar")), "7#foo=bar");
    assert_eq!(encode_line(12, &del("k")), "12#DEL k");
    assert_eq!(encode_line(0, &put("", "")), "0#=");
    assert_eq!(encode_line(usize::MAX, &del("z")), format!("{}#DEL z", usize::MAX));
}

#[test]
fn decode_well_formed_lines() {
    match decode_line("42#key=va=lue") {
        Some((42, Command::Put { key, value })) => {
            assert_eq!(key, "key");
            assert_eq!(value, "va=lue");
        }
        other => panic!("unexpected {:?}", other),
    }
    match decode_line("3#DEL gone") {
        Some((3, Command::Delete { key })) => assert_eq!(key, "gone"),
        other => panic!("unexpected {:?}", other),
    }
    match decode_line("5#DEL a=b") {
        Some((5, Command::Put { key, value })) => {
            assert_eq!(key, "DEL a");
            assert_eq!(value, "b");
        }
        other => panic!("unexpected {:?}", other),
    }
    match decode_line("007#é#=ü") {
        Some((7, Command::Put { key, value })) => {
            assert_eq!(key, "é#");
            assert_eq!(value, "ü");
        }
        other => panic!("unexpected {:?}", other),
    }
}

#[test]
fn decode_refuses_malformed_lines() {
    assert!(decode_line("").is_none());
    assert!(decode_line("no separator").is_none());
    assert!(decode_line("#a=b").is_none());
    assert!(decode_line("1x#a=b").is_none());
    assert!(decode_line("4#plain").is_none());
    assert!(decode_line("4#DEL").is_none());
    assert!(decode_line("99999999999999999999999#a=b").is_none());
}

#[test]
fn decode_reads_back_what_encode_wrote() {
    let commands = vec![put("a", "1"), del("b"), put("DEL c", "=x"), put("ключ", "значение")];
    for (i, c) in commands.iter().enumerate() {
        let line = encode_line(i * 1000, c);
        let (n, back) = decode_line(&line).unwrap();
        assert_eq!(n, i * 1000);
        assert_eq!(format!("{:?}", back), format!("{:?}", c));
    }
}

#[test]
fn storable_commands() {
    assert!(is_storable(&put("a", "b=c")));
    assert!(is_storable(&del("key")));
    assert!(!is_storable(&put("a=b", "c")));
    assert!(!is_storable(&put("a", "b\nc")));
    assert!(!is_storable(&put("a", "b\r")));
    assert!(!is_storable(&del("x\ny")));
    assert!(!is_storable(&Command::Get { key: "a".to_string() }));
}

fn lines(texts: &[&str]) -> Vec<String> {
    texts.iter().map(|t| t.to_string()).collect()
}

#[test]
fn log_counter_starts_past_highest_sequence() {
    let log = CommandLog::new("log.1".to_string(), &Vec::new()).unwrap();
    let mut log = log;
    assert_eq!(log.append(&put("a", "1")).unwrap().sequence, 0);

    let mut log = CommandLog::new("log.1".to_string(), &lines(&["0#a=1", "junk", "9#DEL a", "4#b=2"])).unwrap();
    assert_eq!(log.filename(), "log.1");
    let first = log.append(&put("c", "3")).unwrap();
    assert_eq!(first.sequence, 10);
    assert_eq!(first.text, "10#c=3");
}

#[test]
fn log_sequences_strictly_increase() {
    let mut log = CommandLog::new("log.2".to_string(), &lines(&["5#a=1"])).unwrap();
    let mut last: Option<usize> = None;
    for i in 0..5 {
        let line = log.append(&put("k", &i.to_string())).unwrap();
        if let Some(previous) = last {
            assert!(line.sequence > previous);
        }
        last = Some(line.sequence);
    }
    assert_eq!(last, Some(10));
}

#[test]
fn log_resumes_after_restart() {
    let mut log = CommandLog::new("log.3".to_string(), &Vec::new()).unwrap();
    let mut file: Vec<String> = Vec::new();
    for c in [put("a", "1"), del("a"), put("b", "2")] {
        file.push(log.append(&c).unwrap().text);
    }
    let mut again = CommandLog::new("log.3".to_string(), &file).unwrap();
    assert_eq!(again.append(&put("c", "3")).unwrap().sequence, 3);
}

#[test]
fn log_with_largest_sequence_has_none_left() {
    let line = format!("{}#a=1", usize::MAX);
    assert!(CommandLog::new("log.4".to_string(), &vec![line]).is_none());
    let line = format!("{}#a=1", usize::MAX - 1);
    let mut log = CommandLog::new("log.4".to_string(), &vec![line]).unwrap();
    assert!(log.append(&put("b", "2")).is_none());
}

#[test]
fn replicated_append_keeps_owner_sequence() {
    let mut log = CommandLog::new("log.5".to_string(), &Vec::new()).unwrap();
    let LogLine { sequence, text } = log.replicated_append(&del("x"), 41);
    assert_eq!(sequence, 41);
    assert_eq!(text, "41#DEL x");
    assert_eq!(log.append(&put("y", "1")).unwrap().sequence, 0);
}

#[test]
fn replay_matches_direct_application() {
    let commands = vec![put("a", "1"), put("b", "2"), del("a"), put("b", "3"), del("zz"), put("c", "4")];
    let mut direct = KV::new(Vec::new());
    let mut log = CommandLog::new("log.6".to_string(), &Vec::new()).unwrap();
    let mut file = Vec::new();
    for c in &commands {
        file.push(log.append(c).unwrap().text);
        direct.apply(c);
    }
    let replayed = KV::init_from_log_lines(&file);
    let mut a = replayed.snapshot();
    let mut b = direct.snapshot();
    a.sort();
    b.sort();
    assert_eq!(a, b);
    assert_eq!(b, vec![("b".to_string(), "3".to_string()), ("c".to_string(), "4".to_string())]);
}

#[test]
fn restart_keeps_written_value() {
    let mut log = CommandLog::new("log.7".to_string(), &Vec::new()).unwrap();
    let mut kv = KV::init_from_log_lines(&Vec::new());
    let mut file = Vec::new();
    let c = put("foo", "bar");
    file.push(log.append(&c).unwrap().text);
    kv.apply(&c);
    drop(kv);
    let kv = KV::init_from_log_lines(&file);
    assert_eq!(get_reply(&kv, &"foo".to_string()), "bar");
}

#[test]
fn delete_of_missing_key_is_logged() {
    let mut log = CommandLog::new("log.8".to_string(), &Vec::new()).unwrap();
    let mut kv = KV::new(Vec::new());
    let c = del("missing-key");
    let line = log.append(&c).unwrap();
    kv.apply(&c);
    assert_eq!(line.text, "0#DEL missing-key");
    assert_eq!(get_reply(&kv, &"missing-key".to_string()), "__none__");
    let replayed = KV::init_from_log_lines(&vec![line.text]);
    assert_eq!(get(&replayed, "missing-key"), None);
}

#[test]
fn log_file_is_named_after_node() {
    assert_eq!(log_file_name(&"7".to_string()), "log.7");
}
