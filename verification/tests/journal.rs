//! The record of what was read, and what it adds up to.

use omalibre::annotation::{Color, Slice};
use omalibre::doc::Locator;
use omalibre::identity::BookId;
use omalibre::journal::{journal_lines, line_to_append, non_empty, Event, Journal, Moment, Patch, Payload, State};

/// A journal whose events are kept in memory, with a clock that ticks once per
/// event.
struct Log {
    journal: Journal,
    events: Vec<Event>,
    now: i64,
}

impl Log {
    fn open() -> Log {
        Log { journal: Journal::open("box".to_string()), events: Vec::new(), now: 1_600_000_000 }
    }

    fn append(&mut self, book: &BookId, payload: Payload) {
        self.now += 1;
        let at = Moment { seconds: self.now, nanos: 0 };
        self.events.push(self.journal.event(at, book, payload));
    }

    fn record_position(&mut self, book: &BookId, locator: &Locator) {
        if let Some(payload) = self.journal.record_position(locator) {
            self.append(book, payload);
            self.journal.assume_written(Some(copy(locator)));
        }
    }

    fn replay(self) -> State {
        Journal::replay(self.events)
    }
}

fn book() -> BookId {
    BookId::from_text("sha256:abc".to_string())
}

fn copy(locator: &Locator) -> Locator {
    Locator { href: locator.href.clone(), block: locator.block, offset: locator.offset }
}

fn locator(block: usize, offset: usize) -> Locator {
    Locator {
        href: "OEBPS/ch01.xhtml".into(),
        block,
        offset,
    }
}

#[test]
fn a_recorded_position_survives_a_replay() {
    let mut log = Log::open();
    log.record_position(&book(), &locator(7, 12));

    let state = log.replay();
    assert_eq!(state.position(&book()), Some(&locator(7, 12)));
}

#[test]
fn the_newest_position_wins() {
    let mut log = Log::open();
    log.record_position(&book(), &locator(1, 0));
    log.record_position(&book(), &locator(40, 5));

    let state = log.replay();
    assert_eq!(state.position(&book()), Some(&locator(40, 5)));
}

#[test]
fn positions_from_another_machine_are_merged() {
    // 2099-01-01T00:00:00Z on the other machine.
    let other = Event {
        at: Moment { seconds: 4_070_908_800, nanos: 0 },
        host: "otherbox".to_string(),
        book: "sha256:abc".to_string(),
        payload: Payload::PositionSet { href: "OEBPS/ch01.xhtml".to_string(), block: 99, offset: 3 },
    };
    let mut log = Log::open();
    log.events.push(other);
    log.record_position(&book(), &locator(1, 0));

    // The other machine's event is dated later, so it wins.
    let state = log.replay();
    assert_eq!(state.position(&book()).map(|l| l.block), Some(99));
}

#[test]
fn reopening_without_moving_adds_nothing() {
    let mut first = Log::open();
    first.record_position(&book(), &locator(9, 4));
    assert_eq!(first.events.len(), 1);
    let state = first.replay();

    // A second session starts from the replayed state.
    let mut second = Log::open();
    second.journal.assume_written(state.position(&book()).map(copy));
    second.record_position(&book(), &locator(9, 4));
    assert_eq!(second.events.len(), 0);
}

#[test]
fn a_comment_survives_a_replay() {
    let mut log = Log::open();
    let id = log.journal.next_id(1);
    log.append(
        &book(),
        Payload::HighlightAdded {
            id: id.clone(),
            href: "c.xhtml".into(),
            slices: vec![Slice {
                block: 1,
                start: 0,
                end: 4,
            }],
            color: Color::Yellow,
            quote: "word".into(),
        },
    );
    log.append(
        &book(),
        Payload::NoteSet {
            id: id.clone(),
            text: "my thought".into(),
        },
    );

    let state = log.replay();
    let marks = state.annotations(&book());
    assert_eq!(marks.len(), 1, "annotation missing after replay");
    assert_eq!(marks[0].note.as_deref(), Some("my thought"));
}

#[test]
fn removing_an_annotation_takes_its_comment_along() {
    let mut log = Log::open();
    let id = log.journal.next_id(1);
    log.append(
        &book(),
        Payload::HighlightAdded {
            id: id.clone(),
            href: "c.xhtml".into(),
            slices: vec![Slice {
                block: 0,
                start: 0,
                end: 2,
            }],
            color: Color::Blue,
            quote: "ab".into(),
        },
    );
    log.append(
        &book(),
        Payload::NoteSet {
            id: id.clone(),
            text: "x".into(),
        },
    );
    log.append(&book(), Payload::AnnotationRemoved { id });

    assert!(log.replay().annotations(&book()).is_empty());
}

#[test]
fn an_empty_directory_replays_to_nothing() {
    let state = Journal::replay(Vec::new());
    assert!(state.position(&book()).is_none());
}

#[test]
fn repeated_positions_are_written_once() {
    let mut log = Log::open();
    log.record_position(&book(), &locator(3, 0));
    log.record_position(&book(), &locator(3, 0));
    assert_eq!(log.events.len(), 1);
}

fn highlight(id: &str, block: usize) -> Payload {
    Payload::HighlightAdded {
        id: id.to_string(),
        href: "c.xhtml".to_string(),
        slices: vec![Slice { block, start: 0, end: 1 }],
        color: Color::Yellow,
        quote: "q".to_string(),
    }
}

#[test]
fn replay_follows_the_clock() {
    let event = |seconds: i64, block: usize| Event {
        at: Moment { seconds, nanos: 0 },
        host: "box".to_string(),
        book: "sha256:abc".to_string(),
        payload: Payload::PositionSet { href: "c".to_string(), block, offset: 0 },
    };
    let state = Journal::replay(vec![event(9, 90), event(3, 30), event(5, 50)]);
    assert_eq!(state.position(&book()).map(|l| l.block), Some(90));
    assert_eq!(state.last_read(&book()), Some(Moment { seconds: 9, nanos: 0 }));
}

#[test]
fn books_do_not_interfere() {
    let other = BookId::from_text("sha256:other".to_string());
    let mut log = Log::open();
    log.append(&book(), highlight("a", 1));
    log.append(&other, highlight("b", 2));
    log.record_position(&book(), &locator(1, 2));
    let state = log.replay();
    assert_eq!(state.annotations(&book()).len(), 1);
    assert_eq!(state.annotations(&other).len(), 1);
    assert_eq!(state.position(&other), None);
}

#[test]
fn annotations_come_in_reading_order() {
    let mut log = Log::open();
    log.append(&book(), highlight("late", 9));
    log.append(&book(), highlight("early", 2));
    let marks = log.replay().annotations(&book());
    assert_eq!(marks.iter().map(|m| m.id.as_str()).collect::<Vec<_>>(), vec!["early", "late"]);
}

#[test]
fn a_comment_is_kept_until_cleared() {
    let mut log = Log::open();
    log.append(&book(), highlight("a", 1));
    log.append(&book(), Payload::NoteSet { id: "a".to_string(), text: "one".to_string() });
    log.append(&book(), Payload::ColorSet { id: "a".to_string(), color: Color::Red });
    let events: Vec<Payload> =
        vec![Payload::NoteSet { id: "a".to_string(), text: String::new() }];
    let kept = Journal::replay(std::mem::take(&mut log.events));
    let marks = kept.annotations(&book());
    assert_eq!(marks[0].note.as_deref(), Some("one"));
    assert_eq!(marks[0].color, Color::Red);
    log.append(&book(), highlight("a", 1));
    for payload in events {
        log.append(&book(), payload);
    }
    assert_eq!(log.replay().annotations(&book())[0].note, None);
}

#[test]
fn amending_what_is_gone_changes_nothing() {
    let mut log = Log::open();
    log.append(&book(), Payload::NoteSet { id: "a".to_string(), text: "one".to_string() });
    log.append(&book(), Payload::ColorSet { id: "a".to_string(), color: Color::Red });
    log.append(&book(), Payload::AnnotationRemoved { id: "a".to_string() });
    assert!(log.replay().annotations(&book()).is_empty());
}

fn seen(title: &str, path: &str) -> Payload {
    Payload::BookSeen {
        title: Some(title.to_string()),
        authors: vec!["One".to_string()],
        path: path.to_string(),
    }
}

#[test]
fn a_file_is_recorded_once() {
    let mut log = Log::open();
    log.append(&book(), seen("A", "/a.epub"));
    log.append(&book(), seen("A", "/b.epub"));
    log.append(&book(), seen("A", "/a.epub"));
    let state = log.replay();
    assert_eq!(state.book(&book()).unwrap().paths, vec!["/a.epub", "/b.epub"]);
    assert_eq!(state.books().len(), 1);
}

#[test]
fn a_correction_outlives_a_scan() {
    let mut log = Log::open();
    log.append(&book(), seen("Wrong Title", "/a.epub"));
    let patch = Patch {
        title: Some("Right Title".to_string()),
        authors: None,
        series: Some("Saga".to_string()),
        series_index: None,
        tags: None,
        rating: Some(5),
        publisher: None,
        year: None,
        language: None,
    };
    log.append(&book(), Payload::MetadataSet(patch));
    log.append(&book(), seen("Wrong Title", "/a.epub"));
    log.append(&book(), Payload::FileMissing { path: "/a.epub".to_string() });
    let state = log.replay();
    let record = state.book(&book()).unwrap();
    assert_eq!(record.title.as_deref(), Some("Right Title"));
    assert_eq!(record.authors, vec!["One"]);
    assert_eq!(record.series.as_deref(), Some("Saga"));
    assert_eq!(record.rating, Some(5));
    assert!(record.missing);
}

#[test]
fn ids_are_made_of_machine_instant_and_number() {
    let mut journal = Journal::open("box".to_string());
    assert_eq!(journal.next_id(17), "box-17-1");
    assert_eq!(journal.next_id(17), "box-17-2");
    assert_eq!(journal.file_name(), "journal-box.jsonl");
    assert_eq!(non_empty(String::new()), None);
    assert_eq!(non_empty("x".to_string()), Some("x".to_string()));
}

/// An event as a line of a journal file holds it.
fn read_event(line: &str) -> Option<Event> {
    let value: serde_json::Value = serde_json::from_str(line).ok()?;
    let at = chrono::DateTime::parse_from_rfc3339(value.get("at")?.as_str()?).ok()?;
    Some(Event {
        at: Moment { seconds: at.timestamp(), nanos: at.timestamp_subsec_nanos() },
        host: value.get("host")?.as_str()?.to_string(),
        book: value.get("book")?.as_str()?.to_string(),
        payload: Payload::PositionSet {
            href: value.get("href")?.as_str()?.to_string(),
            block: value.get("block")?.as_u64()? as usize,
            offset: value.get("offset")?.as_u64()? as usize,
        },
    })
}

#[test]
fn a_damaged_line_does_not_hide_the_others() {
    let file = "not json at all\n\
         {\"at\":\"2020-01-01T00:00:00Z\",\"host\":\"box\",\"book\":\"sha256:abc\",\
         \"type\":\"position_set\",\"href\":\"c.xhtml\",\"block\":5,\"offset\":0}\n\
         {\"at\":\"2020-01-01T00:00:01Z\",\"host\":\"box\",\"book\":\
         \n";
    let lines = journal_lines(&file.as_bytes().to_vec());
    assert_eq!(lines.len(), 3);
    let state = Journal::replay(lines.iter().filter_map(|line| read_event(line)).collect());
    assert_eq!(state.position(&book()).map(|l| l.block), Some(5));
}

#[test]
fn a_line_that_is_no_text_is_left_out() {
    let mut bytes = b"one\r\n  \n".to_vec();
    bytes.extend([0xff, 0xfe, b'\n']);
    bytes.extend("zw\u{f6}lf\n\nlast\r".as_bytes());
    assert_eq!(journal_lines(&bytes), vec!["one", "zw\u{f6}lf", "last\r"]);
    assert_eq!(journal_lines(&Vec::new()).len(), 0);
    assert_eq!(journal_lines(&vec![0xc3, b'\n', b'x']), vec!["x"]);
}

#[test]
fn listings_replay_alike() {
    let event = |seconds: i64, block: usize| Event {
        at: Moment { seconds, nanos: 0 },
        host: "box".to_string(),
        book: "sha256:abc".to_string(),
        payload: Payload::PositionSet { href: "c".to_string(), block, offset: 0 },
    };
    for order in [[1, 2, 3], [3, 2, 1], [2, 3, 1], [1, 3, 2]] {
        let state =
            Journal::replay(order.iter().map(|n| event(*n, *n as usize * 10)).collect());
        assert_eq!(state.position(&book()).map(|l| l.block), Some(30));
        assert_eq!(state.last_read(&book()), Some(Moment { seconds: 3, nanos: 0 }));
    }
}

#[test]
fn an_append_is_read_on_its_own() {
    let mut file = b"one\n".to_vec();
    file.extend(line_to_append(file.last().copied(), b"two"));
    assert_eq!(file, b"one\ntwo\n");
    // A line that was cut off is ended before the next one begins.
    let mut file = b"one\n{\"at\":".to_vec();
    file.extend(line_to_append(file.last().copied(), b"two"));
    assert_eq!(journal_lines(&file), vec!["one", "{\"at\":", "two"]);
    assert_eq!(line_to_append(None, b"x"), b"x\n");
}

#[test]
fn ids_are_fresh() {
    let mut here = Journal::open("box".to_string());
    let mut there = Journal::open("box-1".to_string());
    let mut ids = Vec::new();
    for now in [0, 1, 11, 17, 17, 117] {
        ids.push(here.next_id(now));
        ids.push(there.next_id(now));
    }
    // A machine that starts again counts from one, at a later instant.
    ids.push(Journal::open("box".to_string()).next_id(118));
    let count = ids.len();
    ids.sort();
    ids.dedup();
    assert_eq!(ids.len(), count);
}

#[test]
fn at_the_same_instant_the_later_read_position_wins() {
    let event = |seconds: i64, block: usize| Event {
        at: Moment { seconds, nanos: 0 },
        host: "box".to_string(),
        book: "sha256:abc".to_string(),
        payload: Payload::PositionSet { href: "c".to_string(), block, offset: 0 },
    };
    for order in [[(5, 50), (3, 30), (5, 51)], [(5, 50), (5, 51), (3, 30)]] {
        let events = order.iter().map(|(at, block)| event(*at, *block)).collect();
        let state = Journal::replay(events);
        assert_eq!(state.position(&book()).map(|l| l.block), Some(51));
        assert_eq!(state.last_read(&book()), Some(Moment { seconds: 5, nanos: 0 }));
    }
}
