use epubtr::writer::{SpineWriter, WriterStep};

fn drain(writer: &mut SpineWriter, log: &mut Vec<String>) {
    loop {
        match writer.next_step() {
            WriterStep::CopyRaw(index) => log.push(format!("{} raw", index)),
            WriterStep::WritePage(index, html) => log.push(format!("{} {}", index, html)),
            WriterStep::Wait | WriterStep::Done => return,
        }
    }
}

#[test]
fn pages_are_written_in_order() {
    let mut writer = SpineWriter::new(vec![true, false, true, true]);
    let mut log = Vec::new();
    drain(&mut writer, &mut log);
    assert!(log.is_empty());
    for (index, html) in [(3usize, "tres"), (2, "dos"), (0, "cero")] {
        if let Some(now) = writer.on_received(index, html.to_string()) {
            log.push(format!("{} {}", index, now));
        }
        drain(&mut writer, &mut log);
    }
    assert_eq!(log, vec!["0 cero", "1 raw", "2 dos", "3 tres"]);
    assert!(matches!(writer.next_step(), WriterStep::Done));
    assert_eq!(writer.kept_pages(), 0);
}

#[test]
fn pages_that_do_not_arrive_are_kept() {
    let mut writer = SpineWriter::new(vec![true, true, false, true]);
    assert!(matches!(writer.next_step(), WriterStep::Wait));
    assert_eq!(writer.on_received(1, "uno".to_string()), None);
    assert!(matches!(writer.next_step(), WriterStep::Wait));
    assert_eq!(writer.on_closed(), 0);
    let mut log = Vec::new();
    drain(&mut writer, &mut log);
    assert_eq!(log, vec!["1 uno", "2 raw"]);
    assert_eq!(writer.on_closed(), 3);
    assert!(matches!(writer.next_step(), WriterStep::Done));
    assert_eq!(writer.kept_pages(), 2);
}

#[test]
fn a_book_without_pages_needs_no_waiting() {
    let mut writer = SpineWriter::new(vec![false, false]);
    let mut log = Vec::new();
    drain(&mut writer, &mut log);
    assert_eq!(log, vec!["0 raw", "1 raw"]);
}
