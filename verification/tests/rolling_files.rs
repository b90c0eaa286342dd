use mcapable_core::decode::{get_record_location, parse_footer_record};
use mcapable_core::error::Error;
use mcapable_core::kv::StringMap;
use mcapable_core::message_stream::{message_stream_step, MessageStreamState, RecordBlock, StreamStep};
use mcapable_core::rolling::time::{Duration, SystemTime};
use mcapable_core::rolling::trigger::{AnyTrigger, MaxSize, MessageCount, SplitTrigger};
use mcapable_core::rolling::types::ClosedFileContext;
use mcapable_core::rolling::writer::{RollingChannelWriter, RollingWriter, WriteStep};
use mcapable_core::types::{Channel, Metadata, RawMessage, Schema};
use mcapable_core::writer::{ChannelSpec, SchemaSpec, WriterBuilder};

const MAGIC: [u8; 8] = [0x89, b'M', b'C', b'A', b'P', b'0', b'\r', b'\n'];

/// A rolling writer whose files are collected in memory.
struct Files<T: SplitTrigger> {
    w: RollingWriter<T>,
    files: Vec<Vec<u8>>,
    cur: Vec<u8>,
    splits: usize,
}

impl<T: SplitTrigger> Files<T> {
    fn new(trigger: T) -> Self {
        let mut w = RollingWriter::new(WriterBuilder::new().profile("test"), trigger, 0).unwrap();
        let cur = w.take_output();
        Files { w, files: Vec::new(), cur, splits: 0 }
    }

    fn drain(&mut self) {
        let out = self.w.take_output();
        self.cur.extend_from_slice(&out);
    }

    fn add_channel(&mut self, topic: &str, encoding: &str) -> Result<RollingChannelWriter, Error> {
        self.add_spec(ChannelSpec::new(topic.to_string(), encoding.to_string()))
    }

    fn add_spec(&mut self, spec: ChannelSpec) -> Result<RollingChannelWriter, Error> {
        let r = self.w.add_channel(spec);
        self.drain();
        r
    }

    fn write(&mut self, ch: &mut RollingChannelWriter, t: u64, data: &[u8]) -> Result<(), Error> {
        let step = self.w.write_or_split(ch, t, t, data, Duration::from_secs(0));
        self.drain();
        match step? {
            WriteStep::Written => Ok(()),
            WriteStep::SplitFirst => {
                self.force_split()?;
                let r = self.w.write_message(ch, t, t, data);
                self.drain();
                r
            }
        }
    }

    fn force_split(&mut self) -> Result<ClosedFileContext, Error> {
        self.drain();
        let tail = self.w.begin_split(SystemTime::unix_epoch())?;
        self.cur.extend_from_slice(&tail.bytes);
        self.files.push(std::mem::take(&mut self.cur));
        self.w.complete_split(0)?;
        self.drain();
        self.splits += 1;
        Ok(tail.closed)
    }

    fn finish(&mut self) -> Result<(), Error> {
        let r = self.w.finish();
        self.drain();
        if !self.cur.is_empty() {
            self.files.push(std::mem::take(&mut self.cur));
        }
        r
    }
}

/// The opcode and content of every record of a whole file.
fn records(file: &[u8]) -> Vec<(u8, Vec<u8>)> {
    assert_eq!(&file[..8], &MAGIC);
    assert_eq!(&file[file.len() - 8..], &MAGIC);
    let body = &file[8..file.len() - 8];
    let mut out = Vec::new();
    let mut pos = 0;
    while pos < body.len() {
        let loc = get_record_location(body, pos).expect("record");
        out.push((loc.opcode, body[loc.content_start..loc.next_record_start].to_vec()));
        pos = loc.next_record_start;
    }
    out
}

/// The file starts with a Header and ends with a Footer and the magic.
fn validate(file: &[u8]) {
    let recs = records(file);
    assert_eq!(recs.first().unwrap().0, 0x01);
    assert_eq!(recs.last().unwrap().0, 0x02);
    parse_footer_record(&recs.last().unwrap().1).unwrap();
}

/// The messages of a file, with the schemas and channels read along the way.
fn read(file: &[u8]) -> (Vec<RawMessage>, Vec<Schema>, Vec<Channel>) {
    let mut st = MessageStreamState::new(None);
    let mut msgs = Vec::new();
    let mut pos = 8;
    let mut block = None;
    loop {
        match message_stream_step(&mut st, block.take()) {
            StreamStep::Emit(m) => msgs.push(m),
            StreamStep::Done => break,
            StreamStep::Failed(e) => panic!("unreadable file: {e:?}"),
            StreamStep::NeedChannelDecision(_) => unreachable!(),
            StreamStep::NeedBlock => {
                let loc = get_record_location(file, pos).expect("record");
                block = Some(RecordBlock {
                    opcode: loc.opcode,
                    data: file[loc.content_start..loc.next_record_start].to_vec(),
                    offset: pos as u64,
                    index_probes: None,
                });
                pos = loc.next_record_start;
            }
        }
    }
    (msgs, st.schemas().clone(), st.channels().clone())
}

fn count_messages(file: &[u8]) -> usize {
    read(file).0.len()
}

fn count_opcode(file: &[u8], opcode: u8) -> usize {
    records(file).iter().filter(|r| r.0 == opcode).count()
}

#[test]
fn single_file_no_split() {
    let mut f = Files::new(MessageCount::new(1000));
    let mut ch = f.add_channel("/topic", "json").unwrap();
    for i in 0..5u64 {
        f.write(&mut ch, i * 1000, b"data").unwrap();
    }
    f.finish().unwrap();
    assert_eq!(f.files.len(), 1);
    validate(&f.files[0]);
    assert_eq!(count_messages(&f.files[0]), 5);
}

#[test]
fn message_count_trigger_splits() {
    let mut f = Files::new(MessageCount::new(3));
    let mut ch = f.add_channel("/topic", "json").unwrap();
    for i in 0..10u64 {
        f.write(&mut ch, i * 1000, b"data").unwrap();
    }
    f.finish().unwrap();
    assert_eq!(f.files.len(), 4);
    let total: usize = f.files.iter().map(|x| count_messages(x)).sum();
    assert_eq!(total, 10);
    assert_eq!(count_messages(&f.files[0]), 3);
    assert_eq!(count_messages(&f.files[1]), 3);
    assert_eq!(count_messages(&f.files[2]), 3);
    assert_eq!(count_messages(&f.files[3]), 1);
    for x in &f.files {
        validate(x);
    }
}

#[test]
fn schemas_and_channels_in_every_file() {
    let mut f = Files::new(MessageCount::new(2));
    let spec = ChannelSpec::new("/lidar".to_string(), "cdr".to_string()).schema(SchemaSpec::new(
        "PointCloud2".to_string(),
        "ros2msg".to_string(),
        b"schema-data".to_vec(),
    ));
    let mut ch = f.add_spec(spec).unwrap();
    for i in 0..6u64 {
        f.write(&mut ch, i * 1000, b"msg").unwrap();
    }
    f.finish().unwrap();
    assert_eq!(f.files.len(), 3);
    for x in &f.files {
        validate(x);
        let (_, schemas, channels) = read(x);
        assert!(!schemas.is_empty());
        assert!(!channels.is_empty());
        assert_eq!(schemas[0].name, "PointCloud2");
        assert_eq!(channels[0].topic, "/lidar");
    }
}

#[test]
fn channel_ids_stable_across_files() {
    let mut f = Files::new(MessageCount::new(2));
    let mut ch1 = f.add_channel("/topic_a", "json").unwrap();
    let mut ch2 = f.add_channel("/topic_b", "json").unwrap();
    let id1 = ch1.channel_id();
    let id2 = ch2.channel_id();
    for i in 0..6u64 {
        f.write(&mut ch1, i * 1000, b"a").unwrap();
        f.write(&mut ch2, i * 1000, b"b").unwrap();
    }
    f.finish().unwrap();
    assert!(f.files.len() >= 2);
    for x in &f.files {
        let (_, _, channels) = read(x);
        let a = channels.iter().find(|c| c.id == id1).expect("channel id1 must exist");
        assert_eq!(a.topic, "/topic_a");
        let b = channels.iter().find(|c| c.id == id2).expect("channel id2 must exist");
        assert_eq!(b.topic, "/topic_b");
    }
}

#[test]
fn sequence_numbers_monotonic_across_files() {
    let mut f = Files::new(MessageCount::new(3));
    let mut ch = f.add_channel("/topic", "json").unwrap();
    for i in 0..9u64 {
        f.write(&mut ch, i * 1000, b"data").unwrap();
    }
    f.finish().unwrap();
    let all: Vec<u32> = f.files.iter().flat_map(|x| read(x).0.into_iter().map(|m| m.sequence)).collect();
    assert_eq!(all, (0..9).collect::<Vec<u32>>());
}

#[test]
fn force_split() {
    let mut f = Files::new(MessageCount::new(1000));
    let mut ch = f.add_channel("/topic", "json").unwrap();
    f.write(&mut ch, 1000, b"before").unwrap();
    let closed = f.force_split().unwrap();
    assert_eq!(closed.file_index, 0);
    assert_eq!(closed.message_count, 1);
    assert_eq!(f.w.current_file_index(), 1);
    let mut ch2 = f.add_channel("/topic2", "json").unwrap();
    f.write(&mut ch2, 2000, b"after").unwrap();
    f.finish().unwrap();
    assert_eq!(f.files.len(), 2);
    assert_eq!(count_messages(&f.files[0]), 1);
    assert_eq!(count_messages(&f.files[1]), 1);
}

#[test]
fn rolling_writer_any_trigger_first_to_fire() {
    let trigger = AnyTrigger::new().or(MaxSize::new(u64::MAX)).or(MessageCount::new(5));
    let mut f = Files::new(trigger);
    let mut ch = f.add_channel("/topic", "json").unwrap();
    for i in 0..12u64 {
        f.write(&mut ch, i * 1000, b"data").unwrap();
    }
    f.finish().unwrap();
    assert_eq!(f.files.len(), 3);
    assert_eq!(count_messages(&f.files[0]), 5);
    assert_eq!(count_messages(&f.files[1]), 5);
    assert_eq!(count_messages(&f.files[2]), 2);
}

#[test]
fn multiple_channel_writers_across_splits() {
    let mut f = Files::new(MessageCount::new(4));
    let mut a = f.add_channel("/a", "json").unwrap();
    let mut b = f.add_channel("/b", "json").unwrap();
    for i in 0..4u64 {
        f.write(&mut a, i * 1000, b"aa").unwrap();
        f.write(&mut b, i * 1000, b"bb").unwrap();
    }
    f.finish().unwrap();
    let total: usize = f.files.iter().map(|x| count_messages(x)).sum();
    assert_eq!(total, 8);
    for x in &f.files {
        validate(x);
    }
}

#[test]
fn on_split_callback() {
    let mut f = Files::new(MessageCount::new(3));
    let mut ch = f.add_channel("/topic", "json").unwrap();
    for i in 0..10u64 {
        f.write(&mut ch, i * 1000, b"data").unwrap();
    }
    f.finish().unwrap();
    assert_eq!(f.splits, 3);
}

#[test]
fn current_file_stats() {
    let mut f = Files::new(MessageCount::new(5));
    assert_eq!(f.w.current_file_index(), 0);
    assert_eq!(f.w.current_file_message_count(), 0);
    let mut ch = f.add_channel("/topic", "json").unwrap();
    f.write(&mut ch, 1000, b"a").unwrap();
    assert_eq!(f.w.current_file_message_count(), 1);
    f.write(&mut ch, 2000, b"b").unwrap();
    assert_eq!(f.w.current_file_message_count(), 2);
    for i in 3..5u64 {
        f.write(&mut ch, i * 1000, b"x").unwrap();
    }
    assert_eq!(f.w.current_file_message_count(), 4);
    f.write(&mut ch, 5000, b"x").unwrap();
    assert_eq!(f.w.current_file_message_count(), 5);
    f.write(&mut ch, 6000, b"y").unwrap();
    assert_eq!(f.w.current_file_index(), 1);
    assert_eq!(f.w.current_file_message_count(), 1);
}

#[test]
fn finish_is_idempotent() {
    let mut f = Files::new(MessageCount::new(1000));
    let mut ch = f.add_channel("/topic", "json").unwrap();
    f.write(&mut ch, 1000, b"data").unwrap();
    f.finish().unwrap();
    f.finish().unwrap();
    assert_eq!(f.files.len(), 1);
}

#[test]
fn write_after_finish_errors() {
    let mut f = Files::new(MessageCount::new(1000));
    let mut ch = f.add_channel("/topic", "json").unwrap();
    f.write(&mut ch, 1000, b"data").unwrap();
    f.finish().unwrap();
    assert!(f.write(&mut ch, 2000, b"nope").is_err());
}

#[test]
fn empty_file_on_finish() {
    let mut f = Files::new(MessageCount::new(1000));
    f.finish().unwrap();
    assert_eq!(f.files.len(), 1);
    validate(&f.files[0]);
}

#[test]
fn write_metadata_to_current_file() {
    let mut f = Files::new(MessageCount::new(1000));
    let mut map = StringMap::new();
    map.insert("version".to_string(), "1.0".to_string());
    f.w.write_metadata(&Metadata { name: "run_info".to_string(), metadata: map }).unwrap();
    f.finish().unwrap();
    assert_eq!(count_opcode(&f.files[0], 0x0c), 1);
}

#[test]
fn attachment_not_re_emitted_on_split() {
    let mut f = Files::new(MessageCount::new(2));
    let mut ch = f.add_channel("/topic", "json").unwrap();
    f.write(&mut ch, 1000, b"a").unwrap();
    f.w.write_attachment(1000, 1000, &"cal.bin".to_string(), &"application/octet-stream".to_string(), b"calibration")
        .unwrap();
    f.write(&mut ch, 2000, b"b").unwrap();
    f.write(&mut ch, 3000, b"c").unwrap();
    f.write(&mut ch, 4000, b"d").unwrap();
    f.finish().unwrap();
    assert!(f.files.len() >= 2);
    assert_eq!(count_opcode(&f.files[0], 0x09), 1);
    assert_eq!(count_opcode(&f.files[1], 0x09), 0);
}

#[test]
fn metadata_not_re_emitted_on_split() {
    let mut f = Files::new(MessageCount::new(2));
    let mut ch = f.add_channel("/topic", "json").unwrap();
    f.write(&mut ch, 1000, b"a").unwrap();
    f.w.write_metadata(&Metadata { name: "info".to_string(), metadata: StringMap::new() }).unwrap();
    f.write(&mut ch, 2000, b"b").unwrap();
    f.write(&mut ch, 3000, b"c").unwrap();
    f.write(&mut ch, 4000, b"d").unwrap();
    f.finish().unwrap();
    assert!(f.files.len() >= 2);
    assert_eq!(count_opcode(&f.files[0], 0x0c), 1);
    assert_eq!(count_opcode(&f.files[1], 0x0c), 0);
}

#[test]
fn starting_sequence_offset() {
    let mut f = Files::new(MessageCount::new(1000));
    let mut ch = f.add_channel("/topic", "json").unwrap().starting_sequence(100);
    for i in 0..3u64 {
        f.write(&mut ch, i * 1000, b"data").unwrap();
    }
    f.finish().unwrap();
    let seqs: Vec<u32> = read(&f.files[0]).0.iter().map(|m| m.sequence).collect();
    assert_eq!(seqs, vec![100, 101, 102]);
}

#[test]
fn force_split_with_empty_file() {
    let mut f = Files::new(MessageCount::new(1000));
    let mut ch = f.add_channel("/topic", "json").unwrap();
    let closed = f.force_split().unwrap();
    assert_eq!(closed.file_index, 0);
    assert_eq!(closed.message_count, 0);
    assert_eq!(closed.log_time_range, None);
    assert!(closed.file_size > 0);
    f.write(&mut ch, 1000, b"msg").unwrap();
    f.finish().unwrap();
    assert_eq!(f.files.len(), 2);
    validate(&f.files[0]);
    validate(&f.files[1]);
    assert_eq!(count_messages(&f.files[0]), 0);
    assert_eq!(count_messages(&f.files[1]), 1);
}

#[test]
fn closed_file_context_field_accuracy() {
    let mut f = Files::new(MessageCount::new(1000));
    let mut ch = f.add_channel("/topic", "json").unwrap();
    f.write(&mut ch, 1000, b"a").unwrap();
    f.write(&mut ch, 5000, b"b").unwrap();
    f.write(&mut ch, 3000, b"c").unwrap();
    let closed = f.force_split().unwrap();
    assert_eq!(closed.file_index, 0);
    assert_eq!(closed.message_count, 3);
    assert_eq!(closed.log_time_range, Some((1000, 5000)));
    assert!(closed.file_size > 0);
}

#[test]
fn add_channel_after_finish_errors() {
    let mut f = Files::new(MessageCount::new(1000));
    f.finish().unwrap();
    assert!(f.add_channel("/topic", "json").is_err());
}

#[test]
fn split_hands_back_the_whole_closing_tail() {
    let mut w = RollingWriter::new(WriterBuilder::new(), MessageCount::new(1000), 0).unwrap();
    let mut ch = w.add_channel(ChannelSpec::new("/topic".to_string(), "json".to_string())).unwrap();
    w.write_message(&mut ch, 1000, 1000, b"a").unwrap();
    // Nothing taken out yet: the tail holds the whole file.
    let tail = w.begin_split(SystemTime::unix_epoch()).unwrap();
    validate(&tail.bytes);
    assert_eq!(count_messages(&tail.bytes), 1);
    assert_eq!(tail.bytes.len() as u64, tail.closed.file_size);
    assert!(w.take_output().is_empty());
}
