use std::io::{self, Write};

use indent_write::io::{find_line_start, find_newline, IndentWriter};

// Takes at most `budget` bytes in all, then refuses everything.
struct Limited {
    out: Vec<u8>,
    budget: usize,
}

impl Write for Limited {
    fn write(&mut self, buf: &[u8]) -> io::Result<usize> {
        let n = buf.len().min(self.budget);
        self.out.extend_from_slice(&buf[..n]);
        self.budget -= n;
        Ok(n)
    }

    fn flush(&mut self) -> io::Result<()> {
        Ok(())
    }
}

// Takes one byte per call.
struct Dribble(Vec<u8>);

impl Write for Dribble {
    fn write(&mut self, buf: &[u8]) -> io::Result<usize> {
        match buf.first() {
            None => Ok(0),
            Some(&b) => {
                self.0.push(b);
                Ok(1)
            }
        }
    }

    fn flush(&mut self) -> io::Result<()> {
        Ok(())
    }
}

// Fails every call.
struct Broken;

impl Write for Broken {
    fn write(&mut self, _buf: &[u8]) -> io::Result<usize> {
        Err(io::Error::new(io::ErrorKind::Other, "broken"))
    }

    fn flush(&mut self) -> io::Result<()> {
        Err(io::Error::new(io::ErrorKind::Other, "broken"))
    }
}

fn put<W: Write>(w: &mut W, text: &str) {
    w.write_all(text.as_bytes()).unwrap();
}

#[test]
fn nested_track_scenario() {
    let mut dest = Vec::new();
    let mut w = IndentWriter::new("    ", &mut dest);
    put(&mut w, "<trk>\n");
    w.inc();
    put(&mut w, "<name>X</name>\n");
    w.inc();
    put(&mut w, "<pt>\n");
    w.dec();
    put(&mut w, "</pt>\n");
    w.dec();
    put(&mut w, "</trk>\n");
    assert_eq!(
        String::from_utf8(dest).unwrap(),
        "<trk>\n    <name>X</name>\n        <pt>\n    </pt>\n</trk>\n"
    );
}

#[test]
fn blank_lines_are_not_indented() {
    let mut dest = Vec::new();
    let mut w = IndentWriter::new("\t", &mut dest);
    w.inc();
    w.inc();
    put(&mut w, "a\n\n\nb\n\n");
    assert_eq!(dest, b"\t\ta\n\n\n\t\tb\n\n".to_vec());
}

#[test]
fn blank_lines_first() {
    let mut dest = Vec::new();
    let mut w = IndentWriter::new("--", &mut dest);
    w.inc();
    put(&mut w, "\n\nx");
    assert_eq!(dest, b"\n\n--x".to_vec());
}

#[test]
fn dec_at_level_zero_changes_nothing() {
    let mut dest = Vec::new();
    let mut w = IndentWriter::new("    ", &mut dest);
    w.dec();
    assert_eq!(w.indent_level(), 0);
    put(&mut w, "x\n");
    assert_eq!(dest, b"x\n".to_vec());
}

#[test]
fn inc_dec_reset_levels() {
    let mut w = IndentWriter::new("ab", Vec::new());
    w.inc();
    w.inc();
    w.inc();
    assert_eq!(w.indent_level(), 3);
    w.dec();
    assert_eq!(w.indent_level(), 2);
    put(&mut w, "z\n");
    w.reset();
    assert_eq!(w.indent_level(), 0);
    put(&mut w, "y\n");
    assert_eq!(w.into_inner(), b"ababz\ny\n".to_vec());
}

#[test]
fn level_saturates_at_maximum() {
    let mut w = IndentWriter::new("", Vec::<u8>::new());
    for _ in 0..70000u32 {
        w.inc();
    }
    assert_eq!(w.indent_level(), u16::MAX);
}

#[test]
fn multibyte_unit_survives_dec() {
    let mut w = IndentWriter::new("🌊ḈΣ ", Vec::new());
    w.inc();
    w.inc();
    w.dec();
    put(&mut w, "q\n");
    assert_eq!(String::from_utf8(w.into_inner()).unwrap(), "🌊ḈΣ q\n");
}

#[test]
fn one_byte_sink_matches_whole_sink() {
    let text = "first\n\n  second line\nthird";
    let mut whole = IndentWriter::new("->", Vec::new());
    whole.inc();
    put(&mut whole, text);
    let mut dribble = IndentWriter::new("->", Dribble(Vec::new()));
    dribble.inc();
    for chunk in ["fir", "st\n", "\n  sec", "ond line\nthi", "rd"] {
        put(&mut dribble, chunk);
    }
    assert_eq!(dribble.into_inner().0, whole.into_inner());
}

#[test]
fn nested_adapters_split_writes() {
    let mut dest = Vec::new();
    {
        let mut outer = IndentWriter::new("> ", &mut dest);
        outer.inc();
        let mut inner = IndentWriter::new("- ", &mut outer);
        inner.inc();
        put(&mut inner, "ab");
        put(&mut inner, "c\n\nd");
        put(&mut inner, "\n");
    }
    assert_eq!(dest, b"> - abc\n\n> - d\n".to_vec());
}

#[test]
fn refused_indent_reports_zero() {
    let mut w = IndentWriter::new("ab", Limited { out: Vec::new(), budget: 1 });
    w.inc();
    assert_eq!(w.write(b"x").unwrap(), 0);
    assert_eq!(w.get_ref().out, b"a".to_vec());
    let err = w.flush().unwrap_err();
    assert_eq!(err.kind(), io::ErrorKind::WriteZero);
}

#[test]
fn write_counts_only_caller_bytes() {
    let mut w = IndentWriter::new("1234", Vec::new());
    w.inc();
    assert_eq!(w.write(b"ab\ncd").unwrap(), 3);
    assert_eq!(w.write(b"cd").unwrap(), 2);
    assert_eq!(w.into_inner(), b"1234ab\n1234cd".to_vec());
}

#[test]
fn flush_after_partial_indent_completes_it() {
    let mut w = IndentWriter::new("abcd", Dribble(Vec::new()));
    w.inc();
    assert_eq!(w.write(b"x").unwrap(), 1);
    w.flush().unwrap();
    assert_eq!(w.into_inner().0, b"abcdx".to_vec());
}

#[test]
fn sink_errors_pass_through() {
    let mut w = IndentWriter::new("  ", Broken);
    assert!(w.write(b"abc").is_err());
    assert!(w.flush().is_err());
}

#[test]
fn empty_write_takes_nothing() {
    let mut w = IndentWriter::new("  ", Vec::new());
    w.inc();
    assert_eq!(w.write(b"").unwrap(), 0);
    assert_eq!(w.into_inner(), Vec::<u8>::new());
}

#[test]
fn indent_str_gives_unit() {
    let w = IndentWriter::new("🌊ḈΣ ", Vec::<u8>::new());
    assert_eq!(w.indent_str(), "🌊ḈΣ ");
}

#[test]
fn scanners_find_first_positions() {
    assert_eq!(find_newline(b"ab\ncd\n"), Some(2));
    assert_eq!(find_newline(b"abc"), None);
    assert_eq!(find_newline(b""), None);
    assert_eq!(find_line_start(b"\n\nx\n"), Some(2));
    assert_eq!(find_line_start(b"\n\n"), None);
    assert_eq!(find_line_start(b"y"), Some(0));
}

// Records every call; refuses writes while `open` is false.
struct Recorder {
    calls: Vec<Vec<u8>>,
    out: Vec<u8>,
    open: bool,
    flushes: usize,
}

impl Write for Recorder {
    fn write(&mut self, buf: &[u8]) -> io::Result<usize> {
        self.calls.push(buf.to_vec());
        if self.open {
            self.out.extend_from_slice(buf);
            Ok(buf.len())
        } else {
            Ok(0)
        }
    }

    fn flush(&mut self) -> io::Result<()> {
        self.flushes += 1;
        Ok(())
    }
}

fn recorder(open: bool) -> Recorder {
    Recorder { calls: Vec::new(), out: Vec::new(), open, flushes: 0 }
}

#[test]
fn blank_run_goes_in_one_call() {
    let mut w = IndentWriter::new("  ", recorder(true));
    w.inc();
    assert_eq!(w.write(b"\n\n\n").unwrap(), 3);
    assert_eq!(w.get_ref().calls, vec![b"\n\n\n".to_vec()]);
}

// Refuses every write until the shared gate opens, then takes everything.
struct Gated {
    gate: std::rc::Rc<std::cell::Cell<bool>>,
    calls: Vec<Vec<u8>>,
    out: Vec<u8>,
}

impl Write for Gated {
    fn write(&mut self, buf: &[u8]) -> io::Result<usize> {
        self.calls.push(buf.to_vec());
        if self.gate.get() {
            self.out.extend_from_slice(buf);
            Ok(buf.len())
        } else {
            Ok(0)
        }
    }

    fn flush(&mut self) -> io::Result<()> {
        Ok(())
    }
}

#[test]
fn refused_indent_then_retry() {
    let gate = std::rc::Rc::new(std::cell::Cell::new(false));
    let sink = Gated { gate: gate.clone(), calls: Vec::new(), out: Vec::new() };
    let mut w = IndentWriter::new("ab", sink);
    w.inc();
    w.inc();
    assert_eq!(w.write(b"abc").unwrap(), 0);
    assert_eq!(w.get_ref().calls, vec![b"abab".to_vec()]);
    gate.set(true);
    assert_eq!(w.write(b"abc").unwrap(), 3);
    assert_eq!(w.get_ref().out, b"abababc".to_vec());
}

#[test]
fn flush_reaches_the_sink_once() {
    let mut w = IndentWriter::new("  ", recorder(true));
    w.write_all(b"x\n").unwrap();
    w.flush().unwrap();
    assert_eq!(w.get_ref().flushes, 1);
    assert_eq!(w.get_ref().out, b"x\n".to_vec());
}

#[test]
fn newline_written_alone_mid_line() {
    let mut w = IndentWriter::new("> ", Vec::new());
    w.inc();
    assert_eq!(w.write(b"ab").unwrap(), 2);
    assert_eq!(w.write(b"\n").unwrap(), 1);
    assert_eq!(w.write(b"cd\n").unwrap(), 3);
    assert_eq!(w.into_inner(), b"> ab\n> cd\n".to_vec());
}

#[test]
fn sink_write_error_is_returned_unchanged() {
    let mut w = IndentWriter::new("  ", Broken);
    w.inc();
    let err = w.write(b"abc").unwrap_err();
    assert_eq!(err.kind(), io::ErrorKind::Other);
    assert_eq!(err.to_string(), "broken");
}

#[test]
fn flush_with_nothing_pending_only_flushes() {
    let mut w = IndentWriter::new("  ", recorder(true));
    w.inc();
    w.write_all(b"x\n").unwrap();
    let before = w.get_ref().calls.len();
    w.flush().unwrap();
    w.flush().unwrap();
    assert_eq!(w.get_ref().calls.len(), before);
    assert_eq!(w.get_ref().flushes, 2);
}

#[test]
fn flush_after_refused_indent_skips_sink_flush() {
    let mut w = IndentWriter::new("ab", recorder(false));
    w.inc();
    assert_eq!(w.write(b"x").unwrap(), 0);
    let err = w.flush().unwrap_err();
    assert_eq!(err.kind(), io::ErrorKind::WriteZero);
    assert_eq!(w.get_ref().flushes, 0);
    assert_eq!(w.get_ref().calls, vec![b"ab".to_vec(), b"ab".to_vec()]);
}

#[test]
fn flush_error_is_returned_unchanged() {
    let mut w = IndentWriter::new("  ", Broken);
    let err = w.flush().unwrap_err();
    assert_eq!(err.to_string(), "broken");
}

#[test]
fn blank_run_mid_line_goes_in_one_call() {
    let mut w = IndentWriter::new("  ", recorder(true));
    w.inc();
    assert_eq!(w.write(b"ab").unwrap(), 2);
    assert_eq!(w.write(b"\n\n").unwrap(), 2);
    assert_eq!(w.get_ref().calls, vec![b"  ".to_vec(), b"ab".to_vec(), b"\n\n".to_vec()]);
}

#[test]
fn one_byte_sink_matches_whole_sink_across_levels() {
    let mut whole = IndentWriter::new("", Vec::new());
    let mut dribble = IndentWriter::new("", Dribble(Vec::new()));
    put(&mut whole, "top\n");
    put(&mut dribble, "top\n");
    let mut whole = IndentWriter::new("..", whole.into_inner());
    let mut dribble = IndentWriter::new("..", dribble.into_inner());
    whole.inc();
    put(&mut whole, "a\n\nb");
    whole.inc();
    put(&mut whole, "c\n");
    whole.dec();
    put(&mut whole, "d\n");
    whole.reset();
    put(&mut whole, "e\n");
    whole.flush().unwrap();
    dribble.inc();
    put(&mut dribble, "a\n\nb");
    dribble.inc();
    put(&mut dribble, "c\n");
    dribble.dec();
    put(&mut dribble, "d\n");
    dribble.reset();
    put(&mut dribble, "e\n");
    dribble.flush().unwrap();
    let expected = b"top\n..a\n\n..bc\n..d\ne\n".to_vec();
    assert_eq!(whole.into_inner(), expected);
    assert_eq!(dribble.into_inner().0, expected);
}
