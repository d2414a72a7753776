use std::io::{self, Write};
use std::str::from_utf8;

use indent_write::io::IndentWriter;

// A writer that takes one byte per call, to stress partial writes.
#[derive(Debug, Clone)]
struct OneByteAtATime<W>(W);

impl<W: Write> Write for OneByteAtATime<W> {
    fn write(&mut self, buf: &[u8]) -> io::Result<usize> {
        match *buf {
            [] => Ok(0),
            [b, ..] => self.0.write(&[b]),
        }
    }

    fn flush(&mut self) -> io::Result<()> {
        self.0.flush()
    }
}

const CONTENT: &'static [&'static str] = &["\t😀 😀 😀", "\t\t😀 😀 😀", "\t😀 😀 😀"];

fn put<W: Write>(w: &mut W, text: &str) {
    w.write_all(text.as_bytes()).unwrap();
}

// The argument and the newline go in two writes, as formatting sends them.
fn put_line<W: Write>(w: &mut W, text: &str) {
    put(w, text);
    put(w, "\n");
}

#[test]
fn basic_test() {
    let mut dest = Vec::new();

    {
        let mut writer = IndentWriter::new("\t", &mut dest);
        writer.indent();
        for line in CONTENT {
            put_line(&mut writer, line);
        }
    }

    let result = from_utf8(&dest).expect("Wrote invalid utf8 to dest");
    assert_eq!(result, "\t\t😀 😀 😀\n\t\t\t😀 😀 😀\n\t\t😀 😀 😀\n");
}

#[test]
fn test_prefix() {
    let mut dest = Vec::new();
    let mut writer = IndentWriter::new("    ", &mut dest);
    writer.indent();

    for line in CONTENT {
        put_line(&mut writer, line);
    }

    let result = from_utf8(&dest).expect("Wrote invalid utf8 to dest");
    assert_eq!(result, "    \t😀 😀 😀\n    \t\t😀 😀 😀\n    \t😀 😀 😀\n");
}

#[test]
fn test_inc_and_dec() {
    let mut dest = Vec::new();
    let mut writer = IndentWriter::new("    ", &mut dest);

    put(&mut writer, "<trk>\n");

    writer.indent();
    put(&mut writer, "<name>Lincs Riding</name>\n");
    put(&mut writer, "<trkseg>\n");

    writer.indent();
    put(&mut writer, "<trkpt lat=\"53.246708\" lon=\"-0.801052\">\n");

    writer.indent();
    put(&mut writer, "<ele>16.4</ele>\n");
    put(&mut writer, "<time>2024-01-02T10:52:25Z</time>\n");

    writer.outdent();
    put(&mut writer, "</trkpt>\n");

    writer.outdent();
    put(&mut writer, "</trkseg>\n");
    put(&mut writer, "<extensions>\n    <hr>130</hr>\n</extensions>\n");

    writer.outdent();
    put(&mut writer, "</trk>\n");

    let result = from_utf8(&dest).expect("Wrote invalid utf8 to dest");
    assert_eq!(
        result,
        "<trk>
    <name>Lincs Riding</name>
    <trkseg>
        <trkpt lat=\"53.246708\" lon=\"-0.801052\">
            <ele>16.4</ele>
            <time>2024-01-02T10:52:25Z</time>
        </trkpt>
    </trkseg>
    <extensions>
        <hr>130</hr>
    </extensions>
</trk>
"
    );
}

#[test]
fn test_reset() {
    let mut dest = Vec::new();
    let mut writer = IndentWriter::new("    ", &mut dest);
    writer.indent();

    put(&mut writer, "FIRST\n");
    writer.reset();
    put(&mut writer, "SECOND\n");

    let result = from_utf8(&dest).expect("Wrote invalid utf8 to dest");
    assert_eq!(result, "    FIRST\nSECOND\n");
}

#[test]
fn test_multi_indent() {
    let mut dest = Vec::new();
    put_line(&mut dest, "😀 😀 😀");
    {
        let mut indent1 = IndentWriter::new("\t", &mut dest);
        indent1.indent();
        put_line(&mut indent1, "😀 😀 😀");
        {
            let mut indent2 = IndentWriter::new("\t", &mut indent1);
            indent2.indent();
            put_line(&mut indent2, "😀 😀 😀");
            {
                let mut indent3 = IndentWriter::new("\t", &mut indent2);
                indent3.indent();
                put_line(&mut indent3, "😀 😀 😀");
                put(&mut indent3, "\n");
            }
            put_line(&mut indent2, "😀 😀 😀");
        }
        put_line(&mut indent1, "😀 😀 😀");
    }

    let result = from_utf8(&dest).expect("Wrote invalid utf8 to dest");
    assert_eq!(
        result,
        "😀 😀 😀
\t😀 😀 😀
\t\t😀 😀 😀
\t\t\t😀 😀 😀

\t\t😀 😀 😀
\t😀 😀 😀\n"
    )
}

#[test]
fn test_partial_writes() {
    let mut dest = Vec::new();
    {
        let mut partial_writer = OneByteAtATime(&mut dest);
        put(&mut partial_writer, "Hello, ");
        put(&mut partial_writer, "World");
        put(&mut partial_writer, "!");
    }
    assert_eq!(from_utf8(&dest), Ok("Hello, World!"));
}

#[test]
fn test_partial_simple_indent_writes() {
    let mut dest = Vec::new();
    {
        let writer = OneByteAtATime(&mut dest);
        let mut writer = IndentWriter::new("\t", writer);
        writer.indent();
        put_line(&mut writer, "Hello, World");
        put_line(&mut writer, "😀 😀 😀\n😀 😀 😀");
    }
    assert_eq!(
        from_utf8(&dest),
        Ok("\tHello, World\n\t😀 😀 😀\n\t😀 😀 😀\n")
    );
}

#[test]
fn test_partial_simple_indent_writes_inverted() {
    let mut dest = Vec::new();
    {
        let mut writer = IndentWriter::new("\t", &mut dest);
        writer.indent();
        let mut writer = OneByteAtATime(writer);
        put_line(&mut writer, "Hello, World");
        put_line(&mut writer, "😀 😀 😀\n😀 😀 😀");
    }
    assert_eq!(
        from_utf8(&dest),
        Ok("\tHello, World\n\t😀 😀 😀\n\t😀 😀 😀\n")
    );
}

#[test]
fn test_partial_writes_combined() {
    let mut dest = Vec::new();
    {
        let writer = OneByteAtATime(&mut dest);
        let mut writer = IndentWriter::new("    ", writer);
        writer.indent();
        let mut writer = OneByteAtATime(writer);

        put_line(&mut writer, "Hello, World");
        put_line(&mut writer, "😀 😀 😀\n😀 😀 😀");
    }
    assert_eq!(
        from_utf8(&dest),
        Ok("    Hello, World\n    😀 😀 😀\n    😀 😀 😀\n")
    );
}

#[test]
fn test_writes_with_multibyte_unicode() {
    let mut dest = Vec::new();
    let writer = OneByteAtATime(&mut dest);
    // 4, 3, 2 and 1 byte characters, so that the indent is cut by bytes.
    let mut writer = IndentWriter::new("🌊ḈΣ ", writer);

    put(&mut writer, "<point>\n");
    writer.indent();
    put(&mut writer, "<lat>12.3</lat>\n");
    writer.indent();
    put(&mut writer, "<desc>Description</desc>\n");
    writer.outdent();
    put(&mut writer, "<lon>182.3</lon>\n");
    writer.outdent();
    put(&mut writer, "</point>\n");

    let result = String::from_utf8(dest).expect("Wrote invalid utf8 to dest");
    assert_eq!(
        result,
        "<point>
🌊ḈΣ <lat>12.3</lat>
🌊ḈΣ 🌊ḈΣ <desc>Description</desc>
🌊ḈΣ <lon>182.3</lon>
</point>
"
    );
}
