//! Laws of the wire: what a stream of lines becomes on its way to the client, and what is read from
//! it on the way.

use vstd::prelude::*;

use crate::backend::ErrorKind;
use crate::double::Double;
use crate::json;
use crate::json::{JsonView, Number};
use crate::proxy;
use crate::proxy::{ContentIssue, Cumulative, Failure, Happening, SignalsView};
use crate::rewrite;
use crate::text;

verus! {

/// Whether a text is one line: it holds no line end.
pub open spec fn is_line(t: Seq<char>) -> bool {
    !t.contains('\n') && (t.len() > 0 ==> t.last() != '\r')
}

/// Lines one after the other, each with a newline behind it.
pub open spec fn stream_of(lines: Seq<Seq<char>>) -> Seq<char> {
    lines.map_values(|l: Seq<char>| l.push('\n')).flatten()
}

/// A stream begins with its first line.
proof fn lemma_stream_of(lines: Seq<Seq<char>>)
    requires
        lines.len() > 0,
    ensures
        stream_of(lines) == lines[0].push('\n') + stream_of(lines.drop_first()),
{
    let ended = lines.map_values(|l: Seq<char>| l.push('\n'));
    assert(ended.drop_first() =~= lines.drop_first().map_values(|l: Seq<char>| l.push('\n')));
}

/// The encoding of a character other than a newline holds no newline byte.
proof fn lemma_encoded_char(chars: Seq<char>)
    requires
        chars.len() > 0,
        chars[0] != '\n',
    ensures
        ({
            let first = vstd::utf8::encode_scalar(chars[0] as u32);
            forall|i: int| 0 <= i < first.len() ==> #[trigger] first[i] != 10u8
        }),
{
    let first = vstd::utf8::encode_scalar(chars[0] as u32);
    let bytes = vstd::utf8::encode_utf8(chars);
    vstd::utf8::encode_utf8_first_scalar(chars);
    assert(bytes =~= first + vstd::utf8::encode_utf8(chars.drop_first()));
    assert forall|i: int| 0 <= i < first.len() implies #[trigger] first[i] != 10u8 by {
        assert(first[i] == bytes[i]);
        if vstd::utf8::is_leading_byte_width_1(bytes[0]) {
            if bytes[0] == 10u8 {
                assert(10u8 & 0x7F == 10u8) by (bit_vector);
                assert(vstd::utf8::decode_first_scalar(bytes) == 10u32);
                assert(chars[0] as u32 == 10u32);
                vstd::utf8::char_u32_cast(chars[0], 10u32);
                vstd::utf8::char_u32_cast('\n', 10u32);
                assert(false);
            }
            assert(first.len() == 1);
        } else {
            assert(bytes[i] >= 0x80);
        }
    }
}

/// The encoding of a text without newlines holds no newline byte.
proof fn lemma_encoded_line(t: Seq<char>)
    requires
        !t.contains('\n'),
    ensures
        forall|i: int|
            0 <= i < vstd::utf8::encode_utf8(t).len() ==> #[trigger] vstd::utf8::encode_utf8(t)[i]
                != 10u8,
    decreases t.len(),
{
    if t.len() > 0 {
        let rest = t.drop_first();
        let first = vstd::utf8::encode_scalar(t[0] as u32);
        assert(t.contains(t[0]));
        assert(!rest.contains('\n')) by {
            if rest.contains('\n') {
                let k = choose|k: int| 0 <= k < rest.len() && rest[k] == '\n';
                assert(t[k + 1] == '\n');
            }
        }
        lemma_encoded_line(rest);
        lemma_encoded_char(t);
        let bytes = vstd::utf8::encode_utf8(t);
        assert(bytes =~= first + vstd::utf8::encode_utf8(rest));
        assert forall|i: int| 0 <= i < bytes.len() implies #[trigger] bytes[i] != 10u8 by {
            if i < first.len() {
                assert(bytes[i] == first[i]);
            } else {
                assert(bytes[i] == vstd::utf8::encode_utf8(rest)[i - first.len()]);
            }
        }
    }
}

/// A newline is encoded as the newline byte.
proof fn lemma_encoded_newline()
    ensures
        vstd::utf8::encode_utf8(seq!['\n']) == seq![10u8],
{
    let t = seq!['\n'];
    assert(t.drop_first() =~= Seq::<char>::empty());
    assert(10u32 & 0x7F == 10u32) by (bit_vector);
    assert(((10u32 & 0x7F) as u8) == 10u8) by (bit_vector);
    assert(vstd::utf8::encode_scalar(10u32) =~= seq![10u8]);
    assert(vstd::utf8::encode_utf8(t) =~= vstd::utf8::encode_scalar('\n' as u32)
        + vstd::utf8::encode_utf8(t.drop_first()));
    assert(vstd::utf8::encode_utf8(t) =~= seq![10u8]);
}

/// Without line ends, the core of a line is the line.
proof fn lemma_core_of_line(line: Seq<char>, cr: bool)
    requires
        is_line(line),
    ensures
        ({
            let raw = if cr {
                line + seq!['\r', '\n']
            } else {
                line.push('\n')
            };
            proxy::without_trailing(proxy::without_trailing(raw, '\n'), '\r') == line
        }),
{
    reveal_with_fuel(proxy::without_trailing, 3);
    if line.len() > 0 {
        assert(line.contains(line[line.len() - 1]));
    }
    if cr {
        let raw = line + seq!['\r', '\n'];
        assert(raw.drop_last() =~= line.push('\r'));
        assert(line.push('\r').drop_last() =~= line);
        assert(proxy::without_trailing(raw, '\n') == line.push('\r'));
    } else {
        assert(line.push('\n').drop_last() =~= line);
        assert(proxy::without_trailing(line.push('\n'), '\n') == line);
    }
}

/// A stream is passed on line by line: the first line goes out masked, with one newline behind it,
/// whether it came with a carriage return or not, and the rest as it would without the first.
pub proof fn lemma_first_line_goes_out(
    line: Seq<char>,
    cr: bool,
    rest: Seq<u8>,
    slug: Seq<char>,
    alias: Seq<char>,
)
    requires
        is_line(line),
    ensures
        ({
            let came = vstd::utf8::encode_utf8(
                if cr {
                    line + seq!['\r', '\n']
                } else {
                    line.push('\n')
                },
            );
            &&& proxy::emitted(came + rest, slug, alias) == vstd::utf8::encode_utf8(
                rewrite::masked_line(line, slug, alias).push('\n'),
            ) + proxy::emitted(rest, slug, alias)
            &&& proxy::held(came + rest) == proxy::held(rest)
        }),
{
    let front = if cr {
        line.push('\r')
    } else {
        line
    };
    let raw = if cr {
        line + seq!['\r', '\n']
    } else {
        line.push('\n')
    };
    assert(raw =~= front + seq!['\n']);
    let came = vstd::utf8::encode_utf8(raw);
    proxy::lemma_encoded_pieces(front, seq!['\n']);
    lemma_encoded_newline();
    let shown = vstd::utf8::encode_utf8(front);
    assert(!front.contains('\n')) by {
        if front.contains('\n') {
            let k = choose|k: int| 0 <= k < front.len() && front[k] == '\n';
            if k < line.len() {
                assert(line[k] == '\n');
            }
        }
    }
    lemma_encoded_line(front);
    assert(came =~= shown.push(10u8));
    let all = came + rest;
    let at = shown.len() as int;
    assert forall|i: int| 0 <= i < at implies all[i] != 10u8 by {
        assert(all[i] == shown[i]);
    }
    proxy::lemma_newline_is(all, at);
    assert(all.take(at + 1) =~= came);
    assert(all.skip(at + 1) =~= rest);
    vstd::utf8::encode_utf8_valid_utf8(raw);
    vstd::utf8::encode_utf8_decode_utf8(raw);
    lemma_core_of_line(line, cr);
    let m = rewrite::masked_line(line, slug, alias);
    assert(m + seq!['\n'] =~= m.push('\n'));
}

/// A stream without a newline waits: nothing of it is passed on, and all of it is held.
pub proof fn lemma_unfinished_line_waits(tail: Seq<char>, slug: Seq<char>, alias: Seq<char>)
    requires
        !tail.contains('\n'),
    ensures
        proxy::emitted(vstd::utf8::encode_utf8(tail), slug, alias) == Seq::<u8>::empty(),
        proxy::held(vstd::utf8::encode_utf8(tail)) == vstd::utf8::encode_utf8(tail),
{
    let b = vstd::utf8::encode_utf8(tail);
    lemma_encoded_line(tail);
    proxy::lemma_newline_is(b, b.len() as int);
}

/// What is passed on has a line for every line that came, in their order, each the masked one with a
/// newline behind it. An unfinished last line is held back, and goes out masked at the end.
pub proof fn lemma_lines_go_out_one_by_one(
    lines: Seq<Seq<char>>,
    tail: Seq<char>,
    slug: Seq<char>,
    alias: Seq<char>,
)
    requires
        forall|k: int| 0 <= k < lines.len() ==> is_line(#[trigger] lines[k]),
        !tail.contains('\n'),
    ensures
        ({
            let came = vstd::utf8::encode_utf8(stream_of(lines) + tail);
            &&& proxy::emitted(came, slug, alias) == vstd::utf8::encode_utf8(
                stream_of(
                    lines.map_values(|l: Seq<char>| rewrite::masked_line(l, slug, alias)),
                ),
            )
            &&& proxy::held(came) == vstd::utf8::encode_utf8(tail)
            &&& proxy::last_text(proxy::held(came), slug, alias) == (if tail.len() == 0 {
                Seq::<char>::empty()
            } else {
                rewrite::masked_line(tail, slug, alias)
            })
        }),
    decreases lines.len(),
{
    let masked = lines.map_values(|l: Seq<char>| rewrite::masked_line(l, slug, alias));
    let came = vstd::utf8::encode_utf8(stream_of(lines) + tail);
    if lines.len() == 0 {
        assert(stream_of(lines) + tail =~= tail);
        lemma_unfinished_line_waits(tail, slug, alias);
        assert(stream_of(masked) =~= Seq::<char>::empty());
        assert(vstd::utf8::encode_utf8(Seq::<char>::empty()) =~= Seq::<u8>::empty());
        vstd::utf8::encode_utf8_valid_utf8(tail);
        vstd::utf8::encode_utf8_decode_utf8(tail);
        if tail.len() > 0 {
            vstd::utf8::encode_utf8_first_scalar(tail);
            assert(vstd::utf8::encode_utf8(tail).len() > 0);
        }
    } else {
        let rest = lines.drop_first();
        lemma_lines_go_out_one_by_one(rest, tail, slug, alias);
        lemma_stream_of(lines);
        lemma_stream_of(masked);
        let after = stream_of(rest) + tail;
        assert(stream_of(lines) + tail =~= lines[0].push('\n') + after);
        proxy::lemma_encoded_pieces(lines[0].push('\n'), after);
        lemma_first_line_goes_out(
            lines[0],
            false,
            vstd::utf8::encode_utf8(after),
            slug,
            alias,
        );
        let masked_rest = rest.map_values(|l: Seq<char>| rewrite::masked_line(l, slug, alias));
        assert(masked.drop_first() =~= masked_rest);
        assert(masked[0] == rewrite::masked_line(lines[0], slug, alias));
        proxy::lemma_encoded_pieces(masked[0].push('\n'), stream_of(masked_rest));
    }
}

/// Whether a line is one that masking leaves alone: it does not hold the slug, and it is a control
/// frame, an empty line or any other line that carries no data.
pub open spec fn is_plain(line: Seq<char>, slug: Seq<char>) -> bool {
    &&& is_line(line)
    &&& !text::occurs(line, slug)
    &&& !text::occurs(line, "data:"@) || line == "data: [DONE]"@
}

/// A line that carries no data and does not hold the slug is left alone, an empty one too.
pub proof fn lemma_plain_line_is_left_alone(line: Seq<char>, slug: Seq<char>, alias: Seq<char>)
    requires
        is_plain(line, slug),
    ensures
        rewrite::masked_line(line, slug, alias) == line,
{
    if line == "data: [DONE]"@ {
        reveal_strlit("data: [DONE]");
        reveal_strlit("data:");
        reveal_strlit("[DONE]");
        let none = Seq::<char>::empty();
        assert(line =~= none + "data:"@ + seq![' '] + "[DONE]"@ + none);
        lemma_payload_of_data_line(none, seq![' '], "[DONE]"@, none);
    } else {
        let t = text::trimmed_start(line);
        text::lemma_trimmed_start_is_a_tail(line);
        if text::begins_with(t, "data:"@) {
            let n = line.len() - t.len();
            assert(line.subrange(n, n + "data:"@.len()) =~= t.subrange(0, "data:"@.len() as int));
            assert(text::matches_at(line, n, "data:"@));
        }
    }
    rewrite::lemma_control_line_is_untouched(line, slug, alias);
}

/// A stream without data and without the slug is passed on byte for byte, its empty lines too.
pub proof fn lemma_plain_stream_passes_unchanged(
    lines: Seq<Seq<char>>,
    slug: Seq<char>,
    alias: Seq<char>,
)
    requires
        forall|k: int| 0 <= k < lines.len() ==> is_plain(#[trigger] lines[k], slug),
    ensures
        proxy::emitted(vstd::utf8::encode_utf8(stream_of(lines)), slug, alias)
            == vstd::utf8::encode_utf8(stream_of(lines)),
{
    let none = Seq::<char>::empty();
    lemma_lines_go_out_one_by_one(lines, none, slug, alias);
    assert(stream_of(lines) + none =~= stream_of(lines));
    let masked = lines.map_values(|l: Seq<char>| rewrite::masked_line(l, slug, alias));
    assert forall|k: int| 0 <= k < lines.len() implies masked[k] == lines[k] by {
        lemma_plain_line_is_left_alone(lines[k], slug, alias);
    }
    assert(masked =~= lines);
}

/// The payload of a `data:` line is what stands behind the colon, without the white space around it.
pub proof fn lemma_payload_of_data_line(
    a: Seq<char>,
    b: Seq<char>,
    p: Seq<char>,
    c: Seq<char>,
)
    requires
        text::blank(a),
        text::blank(b),
        text::blank(c),
        p.len() > 0 ==> !text::white_space(p[0]) && !text::white_space(p.last()),
    ensures
        rewrite::data_payload(a + "data:"@ + b + p + c) == Some(p),
{
    reveal_strlit("data:");
    let line = a + "data:"@ + b + p + c;
    let behind = b + p + c;
    let t = "data:"@ + behind;
    assert(line =~= a + t);
    text::lemma_trimmed_start_is_a_tail(line);
    let got = text::trimmed_start(line);
    let n = line.len() - got.len();
    assert(n == a.len()) by {
        assert(line[a.len() as int] == 'd');
        if n > a.len() {
            assert(line.take(n)[a.len() as int] == 'd');
            assert(text::white_space('d'));
        }
        if n < a.len() {
            assert(got[0] == line[n]);
            assert(line[n] == a[n]);
        }
    }
    assert(got =~= t);
    assert(t.subrange(0, 5) =~= "data:"@);
    assert(t.skip(5) =~= behind);
    text::lemma_trimmed_is(b, p, c);
}

/// A line that carries a document goes out as the masked document, written anew behind `data: `, with
/// the slug replaced wherever it stands.
pub proof fn lemma_document_line_is_masked(
    line: Seq<char>,
    p: Seq<char>,
    v: JsonView,
    slug: Seq<char>,
    alias: Seq<char>,
)
    requires
        rewrite::data_payload(line) == Some(p),
        p.len() > 0,
        p != "[DONE]"@,
        json::json_read(vstd::utf8::encode_utf8(p)) == Some(v),
    ensures
        ({
            let written = "data: "@ + json::json_text(rewrite::masked_response(v, alias));
            &&& rewrite::masked_line(line, slug, alias) == rewrite::replaced(written, slug, alias)
            &&& !text::occurs(written, slug) ==> rewrite::masked_line(line, slug, alias) == written
        }),
{
    let written = "data: "@ + json::json_text(rewrite::masked_response(v, alias));
    if !text::occurs(written, slug) {
        rewrite::lemma_untouched(written, slug, alias);
    }
}

/// The document that a line of a stream carries, if it carries one.
pub open spec fn frame_of(line: Seq<char>) -> Option<JsonView> {
    match rewrite::data_payload(line) {
        Some(p) => if p == "[DONE]"@ {
            None
        } else {
            json::json_read(vstd::utf8::encode_utf8(p))
        },
        None => None,
    }
}

/// Whether a line carries a document with a member of this name.
pub open spec fn frame_has(line: Seq<char>, name: Seq<char>) -> bool {
    frame_of(line) matches Some(v) && v.get(name) is Some
}

/// The finish reason that a line carries.
pub open spec fn frame_reason(line: Seq<char>) -> Option<Seq<char>> {
    match frame_of(line) {
        Some(v) => proxy::finish_reason_of(v),
        None => None,
    }
}

/// Reading a stream reads its lines one after the other.
proof fn lemma_first_line_is_read(acc: SignalsView, line: Seq<char>, rest: Seq<char>)
    requires
        !line.contains('\n'),
    ensures
        proxy::after_lines(acc, line.push('\n') + rest) == proxy::after_lines(
            proxy::after_line(acc, line),
            rest,
        ),
{
    let t = line.push('\n') + rest;
    let n = line.len() as int;
    text::lemma_first_of(t, '\n');
    assert(t[n] == '\n');
    let i = text::first_of(t, '\n');
    if i < n {
        assert(t[i] == line[i]);
    }
    assert(i == n);
    assert(t.take(n) =~= line);
    assert(t.skip(n + 1) =~= rest);
}

/// What reading the lines of a stream leaves of each signal.
proof fn lemma_stream_signals(acc: SignalsView, lines: Seq<Seq<char>>)
    requires
        forall|k: int| 0 <= k < lines.len() ==> !(#[trigger] lines[k]).contains('\n'),
    ensures
        ({
            let got = proxy::after_lines(acc, stream_of(lines));
            &&& (forall|k: int|
                0 <= k < lines.len() ==> !frame_has(#[trigger] lines[k], "usage"@)) ==> got.usage
                == acc.usage
            &&& (forall|k: int| 0 <= k < lines.len() ==> frame_reason(#[trigger] lines[k]) is None)
                ==> got.finish_reason == acc.finish_reason
            &&& got.has_error <==> acc.has_error || exists|k: int|
                0 <= k < lines.len() && frame_has(#[trigger] lines[k], "error"@)
        }),
    decreases lines.len(),
{
    if lines.len() == 0 {
        let t = stream_of(lines);
        assert(t =~= Seq::<char>::empty());
        text::lemma_first_of(t, '\n');
        assert(text::trimmed_start(t) =~= t);
        reveal_strlit("data:");
    } else {
        let rest = lines.drop_first();
        let next = proxy::after_line(acc, lines[0]);
        lemma_stream_of(lines);
        lemma_first_line_is_read(acc, lines[0], stream_of(rest));
        assert forall|k: int| 0 <= k < rest.len() implies !(#[trigger] rest[k]).contains('\n') by {
            assert(rest[k] == lines[k + 1]);
        }
        lemma_stream_signals(next, rest);
        if forall|k: int| 0 <= k < lines.len() ==> !frame_has(#[trigger] lines[k], "usage"@) {
            assert(!frame_has(lines[0], "usage"@));
            assert forall|k: int| 0 <= k < rest.len() implies !frame_has(
                #[trigger] rest[k],
                "usage"@,
            ) by {
                assert(rest[k] == lines[k + 1]);
            }
        }
        if forall|k: int| 0 <= k < lines.len() ==> frame_reason(#[trigger] lines[k]) is None {
            assert(frame_reason(lines[0]) is None);
            assert forall|k: int| 0 <= k < rest.len() implies frame_reason(
                #[trigger] rest[k],
            ) is None by {
                assert(rest[k] == lines[k + 1]);
            }
        }
        let got = proxy::after_lines(acc, stream_of(lines));
        if got.has_error && !acc.has_error {
            if next.has_error {
                assert(frame_has(lines[0], "error"@));
            } else {
                let k = choose|k: int| 0 <= k < rest.len() && frame_has(#[trigger] rest[k], "error"@);
                assert(frame_has(lines[k + 1], "error"@));
            }
        }
        if exists|k: int| 0 <= k < lines.len() && frame_has(#[trigger] lines[k], "error"@) {
            let k = choose|k: int| 0 <= k < lines.len() && frame_has(#[trigger] lines[k], "error"@);
            if k > 0 {
                assert(rest[k - 1] == lines[k]);
                assert(frame_has(rest[k - 1], "error"@));
            }
        }
    }
}

/// Reading a stream in two parts is reading it at once.
proof fn lemma_stream_in_parts(acc: SignalsView, lines: Seq<Seq<char>>, k: int)
    requires
        forall|j: int| 0 <= j < lines.len() ==> !(#[trigger] lines[j]).contains('\n'),
        0 <= k < lines.len(),
    ensures
        exists|before: SignalsView| #[trigger]
            proxy::after_lines(proxy::after_line(before, lines[k]), stream_of(lines.skip(k + 1)))
                == proxy::after_lines(acc, stream_of(lines)),
    decreases k,
{
    let rest = lines.drop_first();
    lemma_stream_of(lines);
    lemma_first_line_is_read(acc, lines[0], stream_of(rest));
    assert(lines.skip(1) =~= rest);
    if k == 0 {
        assert(proxy::after_lines(
            proxy::after_line(acc, lines[0]),
            stream_of(lines.skip(1)),
        ) == proxy::after_lines(acc, stream_of(lines)));
    } else {
        assert forall|j: int| 0 <= j < rest.len() implies !(#[trigger] rest[j]).contains('\n') by {
            assert(rest[j] == lines[j + 1]);
        }
        lemma_stream_in_parts(proxy::after_line(acc, lines[0]), rest, k - 1);
        assert(rest[k - 1] == lines[k]);
        assert(rest.skip(k) =~= lines.skip(k + 1));
    }
}

/// A stream is read to its last signals. Where a line carries a usage block and no later one does,
/// that is the usage of the stream; the same goes for the finish reason; and an error anywhere counts.
pub proof fn lemma_last_signals_count(body: Seq<u8>, lines: Seq<Seq<char>>, k: int)
    requires
        forall|j: int| 0 <= j < lines.len() ==> !(#[trigger] lines[j]).contains('\n'),
        body == vstd::utf8::encode_utf8(stream_of(lines)),
        json::json_read(body) is None,
        0 <= k < lines.len(),
    ensures
        frame_has(lines[k], "usage"@) && (forall|j: int|
            k < j < lines.len() ==> !frame_has(#[trigger] lines[j], "usage"@))
            ==> proxy::body_signals(body).usage == rewrite::usage_of(frame_of(lines[k])->Some_0)
            && proxy::body_signals(body).usage is Some,
        frame_reason(lines[k]) is Some && (forall|j: int|
            k < j < lines.len() ==> frame_reason(#[trigger] lines[j]) is None)
            ==> proxy::body_signals(body).finish_reason == frame_reason(lines[k]),
        frame_has(lines[k], "error"@) ==> proxy::body_signals(body).has_error,
{
    let t = stream_of(lines);
    let none = proxy::no_signals();
    vstd::utf8::encode_utf8_valid_utf8(t);
    vstd::utf8::encode_utf8_decode_utf8(t);
    let rest = lines.skip(k + 1);
    assert forall|j: int| 0 <= j < rest.len() implies !(#[trigger] rest[j]).contains('\n') by {
        assert(rest[j] == lines[j + k + 1]);
    }
    lemma_stream_in_parts(none, lines, k);
    let before = choose|before: SignalsView| #[trigger]
        proxy::after_lines(proxy::after_line(before, lines[k]), stream_of(rest))
            == proxy::after_lines(none, stream_of(lines));
    lemma_stream_signals(proxy::after_line(before, lines[k]), rest);
    lemma_stream_signals(none, lines);
    if forall|j: int| k < j < lines.len() ==> !frame_has(#[trigger] lines[j], "usage"@) {
        assert forall|j: int| 0 <= j < rest.len() implies !frame_has(
            #[trigger] rest[j],
            "usage"@,
        ) by {
            assert(rest[j] == lines[j + k + 1]);
        }
    }
    if forall|j: int| k < j < lines.len() ==> frame_reason(#[trigger] lines[j]) is None {
        assert forall|j: int| 0 <= j < rest.len() implies frame_reason(
            #[trigger] rest[j],
        ) is None by {
            assert(rest[j] == lines[j + k + 1]);
        }
    }
}

/// A stream in which no line carries a signal has none, and a body that is a document has the signals
/// of that document.
pub proof fn lemma_signals_are_not_invented(body: Seq<u8>, lines: Seq<Seq<char>>)
    requires
        forall|j: int| 0 <= j < lines.len() ==> !(#[trigger] lines[j]).contains('\n'),
        body == vstd::utf8::encode_utf8(stream_of(lines)),
        json::json_read(body) is None,
    ensures
        (forall|k: int| 0 <= k < lines.len() ==> !frame_has(#[trigger] lines[k], "usage"@))
            ==> proxy::body_signals(body).usage is None,
        (forall|k: int| 0 <= k < lines.len() ==> frame_reason(#[trigger] lines[k]) is None)
            ==> proxy::body_signals(body).finish_reason is None,
        proxy::body_signals(body).has_error ==> exists|k: int|
            0 <= k < lines.len() && frame_has(#[trigger] lines[k], "error"@),
{
    let t = stream_of(lines);
    vstd::utf8::encode_utf8_valid_utf8(t);
    vstd::utf8::encode_utf8_decode_utf8(t);
    lemma_stream_signals(proxy::no_signals(), lines);
}

/// The number of a member of an object: a natural number as it is, 0 for anything else.
pub open spec fn is_count(v: JsonView, name: Seq<char>, n: u64) -> bool {
    match v {
        JsonView::Object(m) => if m.contains_key(name) {
            match m[name] {
                JsonView::Number(Number::Unsigned(k)) => n == k,
                _ => n == 0,
            }
        } else {
            n == 0
        },
        _ => n == 0,
    }
}

/// A response reports usage exactly where it holds a usage block, and reports the counts of that
/// block: prompt, completion and cached tokens each from its own member, and the cost where it is a
/// number.
pub proof fn lemma_usage_is_read_from_its_members(
    members: Map<Seq<char>, JsonView>,
    v: JsonView,
)
    requires
        v == JsonView::Object(members),
    ensures
        rewrite::usage_of(v) is Some <==> members.contains_key("usage"@),
        rewrite::usage_of(v) matches Some(u) ==> {
            let block = members["usage"@];
            &&& is_count(block, "prompt_tokens"@, u.prompt_tokens)
            &&& is_count(block, "completion_tokens"@, u.completion_tokens)
            &&& match block {
                JsonView::Object(m) => {
                    &&& m.contains_key("prompt_tokens_details"@) ==> is_count(
                        m["prompt_tokens_details"@],
                        "cached_tokens"@,
                        u.cached_prompt_tokens,
                    )
                    &&& !m.contains_key("prompt_tokens_details"@) ==> u.cached_prompt_tokens == 0
                    &&& u.cost_so_far is Some <==> m.contains_key("cost"@) && m["cost"@] is Number
                    &&& m.contains_key("cost"@) ==> (
                    m["cost"@] matches JsonView::Number(Number::Float(bits)) ==> u.cost_so_far
                        == Some(Double { bits }))
                    &&& m.contains_key("cost"@) ==> (
                    m["cost"@] matches JsonView::Number(Number::Unsigned(n)) ==> u.cost_so_far
                        == Some(Double { bits: json::nearest_double(Number::Unsigned(n)) }))
                },
                _ => u.cached_prompt_tokens == 0 && u.cost_so_far is None,
            }
        },
{
}

/// What is no object reports nothing.
pub proof fn lemma_only_objects_report(v: JsonView)
    requires
        !(v is Object),
    ensures
        rewrite::usage_of(v) is None,
        proxy::finish_reason_of(v) is None,
        !proxy::document_signals(v).has_error,
{
}

/// The finish reason of a document is the text that its first choice gives.
pub proof fn lemma_reason_of_the_first_choice(
    members: Map<Seq<char>, JsonView>,
    choices: Seq<JsonView>,
    choice: Map<Seq<char>, JsonView>,
    reason: Seq<char>,
)
    requires
        members.contains_key("choices"@),
        members["choices"@] == JsonView::Array(choices),
        choices.len() > 0,
        choices[0] == JsonView::Object(choice),
    ensures
        choice.contains_key("finish_reason"@) && choice["finish_reason"@] == JsonView::Text(reason)
            ==> proxy::finish_reason_of(JsonView::Object(members)) == Some(reason),
        !choice.contains_key("finish_reason"@) || !(choice["finish_reason"@] is Text)
            ==> proxy::finish_reason_of(JsonView::Object(members)) is None,
{
}

/// A body that is one document has the signals of that document: its usage, the reason of its first
/// choice, and an error where it has one.
pub proof fn lemma_document_is_read(body: Seq<u8>, members: Map<Seq<char>, JsonView>)
    requires
        json::json_read(body) == Some(JsonView::Object(members)),
    ensures
        proxy::body_signals(body).usage == rewrite::usage_of(JsonView::Object(members)),
        proxy::body_signals(body).finish_reason == proxy::finish_reason_of(
            JsonView::Object(members),
        ),
        proxy::body_signals(body).has_error <==> members.contains_key("error"@),
{
}

/// A successful response tags the session by what it says: an error in its body makes it a failed
/// request, a completion that was cut off or filtered is tagged as such, whatever happened before, and
/// one that simply ended clears what failed before it.
pub proof fn lemma_success_tags_by_what_it_says(
    c: Cumulative,
    sig: SignalsView,
    cost_nano: Option<u64>,
)
    requires
        c.wf(),
        c.seq < u64::MAX,
    ensures
        ({
            let after = proxy::accounted(c, true, sig, cost_nano);
            &&& after.wf()
            &&& sig.has_error ==> after.tagged() == Some(ErrorKind::BadRequest)
                && after.terminal_status() is None
            &&& !sig.has_error ==> after.terminal_status() is None
            &&& !sig.has_error && sig.finish_reason == Some("length"@) ==> after.tagged() == Some(
                ErrorKind::Truncated,
            )
            &&& !sig.has_error && sig.finish_reason == Some("content_filter"@) ==> after.tagged()
                == Some(ErrorKind::Refused)
            &&& !sig.has_error && sig.finish_reason != Some("length"@) && sig.finish_reason != Some(
                "content_filter"@,
            ) && c.content_issue is None ==> after.tagged() is None
            &&& !sig.has_error && sig.finish_reason != Some("length"@) && sig.finish_reason != Some(
                "content_filter"@,
            ) ==> after.content_issue == c.content_issue
        }),
{
    reveal_strlit("length");
    reveal_strlit("content_filter");
    assert("length"@.len() == 6 && "content_filter"@.len() == 14);
}

/// A response with an error status leaves the tag that its status gave the session.
pub proof fn lemma_error_status_keeps_its_tag(
    c: Cumulative,
    status: u16,
    sig: SignalsView,
    cost_nano: Option<u64>,
)
    requires
        c.wf(),
        c.seq < u64::MAX,
        100 <= status <= 999,
    ensures
        ({
            let after = proxy::accounted(
                c.failed(Failure::Http(status)),
                false,
                sig,
                cost_nano,
            );
            &&& after.tagged() == Some(proxy::status_kind(status))
            &&& after.terminal_status() == Some(status)
        }),
{
    proxy::lemma_failure_round_trips(Failure::Http(status));
}

/// A request that got no response tags the session as a network failure, without a status.
pub proof fn lemma_no_response_is_a_network_failure(c: Cumulative)
    requires
        c.wf(),
        c.seq < u64::MAX,
    ensures
        c.failed(Failure::Network).tagged() == Some(ErrorKind::Network),
        c.failed(Failure::Network).terminal_status() is None,
        c.failed(Failure::BodyError).tagged() == Some(ErrorKind::BadRequest),
        Cumulative::fresh().tagged() is None,
        Cumulative::fresh().terminal_status() is None,
        Cumulative::fresh().wf(),
{
}

/// What a status stands for: a limit, credentials, a request that is too large or not to be had, a
/// fault of the server, any other fault of the request, or nothing known.
pub proof fn lemma_statuses_tell_their_kinds(status: u16)
    ensures
        proxy::status_kind(429) == ErrorKind::RateLimit,
        proxy::status_kind(401) == ErrorKind::Auth,
        proxy::status_kind(403) == ErrorKind::Auth,
        proxy::status_kind(413) == ErrorKind::TooLarge,
        proxy::status_kind(404) == ErrorKind::Unavailable,
        500 <= status <= 599 <==> proxy::status_kind(status) == ErrorKind::Http5xx,
        status < 400 || status > 599 <==> proxy::status_kind(status) == ErrorKind::Unknown,
        400 <= status <= 499 && status != 429 && status != 401 && status != 403 && status != 413
            && status != 404 <==> proxy::status_kind(status) == ErrorKind::BadRequest,
{
}

/// A response adds exactly the usage that it reports, and a cost only where it reports one.
pub proof fn lemma_response_adds_its_usage(
    c: Cumulative,
    succeeded: bool,
    sig: SignalsView,
    cost_nano: Option<u64>,
)
    ensures
        ({
            let after = proxy::accounted(c, succeeded, sig, cost_nano);
            &&& sig.usage is None ==> after.sums() == c.sums()
            &&& sig.usage matches Some(u) ==> {
                &&& c.prompt + u.prompt_tokens <= u64::MAX ==> after.sums().prompt_tokens
                    == c.sums().prompt_tokens + u.prompt_tokens
                &&& c.completion + u.completion_tokens <= u64::MAX
                    ==> after.sums().completion_tokens == c.sums().completion_tokens
                    + u.completion_tokens
                &&& c.cached_prompt + u.cached_prompt_tokens <= u64::MAX
                    ==> after.sums().cached_prompt_tokens == c.sums().cached_prompt_tokens
                    + u.cached_prompt_tokens
                &&& cost_nano is None ==> after.sums().cost_nano == c.sums().cost_nano
                &&& cost_nano matches Some(n) ==> (match c.sums().cost_nano {
                    Some(before) => before + n <= u64::MAX ==> after.sums().cost_nano == Some(
                        (before + n) as u64,
                    ),
                    None => c.cost_nano == 0 ==> after.sums().cost_nano == Some(n),
                })
            }
        }),
{
}

/// Whether a happening is a completion that was cut off or filtered.
pub open spec fn ends_badly(h: Happening) -> bool {
    h == Happening::Finished("length"@) || h == Happening::Finished("content_filter"@)
}

/// A session without a failure left over is tagged by the last completion that was cut off or
/// filtered, and not at all where there was none.
pub proof fn lemma_last_bad_ending_tags(history: Seq<Happening>, k: int)
    requires
        history.len() < u64::MAX,
        forall|i: int|
            0 <= i < history.len() ==> ((#[trigger] history[i]) matches Happening::Failed(f)
                ==> f.valid()),
        proxy::unrecovered(history) is None,
        forall|i: int| k < i < history.len() ==> !ends_badly(#[trigger] history[i]),
        -1 <= k < history.len(),
    ensures
        k == -1 ==> proxy::session_after(history).tagged() is None,
        k >= 0 && history[k] == Happening::Finished("length"@) ==> proxy::session_after(
            history,
        ).tagged() == Some(ErrorKind::Truncated),
        k >= 0 && history[k] == Happening::Finished("content_filter"@) ==> proxy::session_after(
            history,
        ).tagged() == Some(ErrorKind::Refused),
{
    reveal_strlit("length");
    reveal_strlit("content_filter");
    assert("length"@.len() == 6 && "content_filter"@.len() == 14);
    proxy::lemma_last_outcome_decides(history);
    lemma_last_issue(history, k);
}

/// The issue that a session carries is that of the last completion that had one.
proof fn lemma_last_issue(history: Seq<Happening>, k: int)
    requires
        -1 <= k < history.len(),
        forall|i: int| k < i < history.len() ==> !ends_badly(#[trigger] history[i]),
    ensures
        ({
            let issue = proxy::session_after(history).content_issue;
            &&& k == -1 ==> issue is None
            &&& k >= 0 && history[k] == Happening::Finished("length"@) ==> issue == Some(
                ContentIssue::Truncated,
            )
            &&& k >= 0 && history[k] == Happening::Finished("content_filter"@) ==> issue == Some(
                ContentIssue::Refused,
            )
        }),
    decreases history.len(),
{
    reveal_strlit("length");
    reveal_strlit("content_filter");
    assert("length"@.len() == 6 && "content_filter"@.len() == 14);
    if history.len() > 0 {
        let rest = history.drop_last();
        if k < history.len() - 1 {
            assert(!ends_badly(history[history.len() - 1]));
            assert forall|i: int| k < i < rest.len() implies !ends_badly(#[trigger] rest[i]) by {
                assert(rest[i] == history[i]);
            }
            lemma_last_issue(rest, k);
            if k >= 0 {
                assert(rest[k] == history[k]);
            }
        }
    }
}

/// A call goes to the provider's base address, with what stands behind the caller's last `/v1`.
pub proof fn lemma_calls_go_to_the_base(
    base: Seq<char>,
    front: Seq<char>,
    behind: Seq<char>,
    query: Option<Seq<char>>,
)
    requires
        forall|at: int|
            at > front.len() ==> !#[trigger] text::matches_at(
                front + "/v1"@ + behind,
                at,
                "/v1"@,
            ),
    ensures
        proxy::target(base, front + "/v1"@ + behind, query) == base + behind + (match query {
            Some(q) => seq!['?'] + q,
            None => Seq::empty(),
        }),
{
    reveal_strlit("/v1");
    let path = front + "/v1"@ + behind;
    assert(path.subrange(front.len() as int, front.len() as int + 3) =~= "/v1"@);
    lemma_last_match(path, "/v1"@, path.len() as int, front.len() as int);
    assert(path.skip(front.len() as int + 3) =~= behind);
}

/// A call whose path names no version goes to the base address with its whole path.
pub proof fn lemma_calls_without_a_version(
    base: Seq<char>,
    path: Seq<char>,
    query: Option<Seq<char>>,
)
    requires
        !text::occurs(path, "/v1"@),
    ensures
        proxy::target(base, path, query) == base + path + (match query {
            Some(q) => seq!['?'] + q,
            None => Seq::empty(),
        }),
{
    lemma_no_match(path, "/v1"@, path.len() as int);
}

/// The last match is the one with none behind it.
proof fn lemma_last_match(t: Seq<char>, needle: Seq<char>, upto: int, k: int)
    requires
        0 <= k <= upto,
        text::matches_at(t, k, needle),
        forall|at: int| at > k ==> !#[trigger] text::matches_at(t, at, needle),
    ensures
        proxy::last_match(t, needle, upto) == k,
    decreases upto,
{
    if upto > k {
        assert(!text::matches_at(t, upto, needle));
        lemma_last_match(t, needle, upto - 1, k);
    }
}

/// Where there is no match there is no last one.
proof fn lemma_no_match(t: Seq<char>, needle: Seq<char>, upto: int)
    requires
        !text::occurs(t, needle),
    ensures
        proxy::last_match(t, needle, upto) < 0,
    decreases upto + 1,
{
    if upto >= 0 {
        assert(!text::matches_at(t, upto, needle));
        lemma_no_match(t, needle, upto - 1);
    }
}

/// The catalog of a session lists one model: the alias.
pub proof fn lemma_catalog_lists_the_alias_alone(alias: Seq<char>)
    ensures
        proxy::catalog(alias).get("data"@) matches Some(data) && data.item(1) is None && (data.item(
            0,
        ) matches Some(entry) && entry.get("id"@) == Some(JsonView::Text(alias))),
{
    reveal_strlit("object");
    reveal_strlit("data");
    reveal_strlit("id");
    reveal_strlit("owned_by");
    assert("object"@.len() == 6 && "data"@.len() == 4 && "id"@.len() == 2 && "owned_by"@.len() == 8);
}

/// A forwarded request carries the caller's content type, or JSON where it gave none, what it
/// accepts, the provider's key where there is one, and then the provider's own headers, in their
/// order, and nothing else.
pub proof fn lemma_headers_of_a_request(
    content_type: Option<Seq<u8>>,
    accept: Option<Seq<u8>>,
    api_key: Option<Seq<char>>,
    extra: Seq<(String, String)>,
)
    ensures
        ({
            let sent = proxy::outgoing(content_type, accept, api_key, extra);
            let own = 1 + (if accept is Some {
                1int
            } else {
                0
            }) + (if api_key is Some {
                1int
            } else {
                0
            });
            &&& sent.len() == own + extra.len()
            &&& sent[0].name == "content-type"@
            &&& content_type matches Some(v) ==> sent[0].value == v
            &&& content_type is None ==> sent[0].value == vstd::utf8::encode_utf8(
                "application/json"@,
            )
            &&& accept matches Some(v) ==> sent[1].name == "accept"@ && sent[1].value == v
            &&& api_key matches Some(key) ==> sent[own - 1].name == "authorization"@
                && sent[own - 1].value == vstd::utf8::encode_utf8("Bearer "@ + key)
            &&& forall|k: int|
                0 <= k < extra.len() ==> sent[own + k].name == (#[trigger] extra[k]).0@
                    && sent[own + k].value == vstd::utf8::encode_utf8(extra[k].1@)
        }),
{
}

/// A request is let out on every day up to the last of its attestation, that day included, and on no
/// other; without a last day on none.
pub proof fn lemma_attestation_covers_its_days(audit: proxy::NonZdrAudit, today: i64)
    ensures
        audit.refusal(today) is None <==> (audit.expires_epoch_days matches Some(last) && today
            <= last),
{
}

/// A record holds the hour, a tab, the slug and a newline, in this order and nothing else.
pub proof fn lemma_record_holds_hour_and_slug(hour: Seq<char>, slug: Seq<char>)
    ensures
        ({
            let record = proxy::audit_record(hour, slug);
            &&& record.len() == hour.len() + slug.len() + 2
            &&& record.take(hour.len() as int) == hour
            &&& record[hour.len() as int] == '\t'
            &&& record.subrange(hour.len() as int + 1, record.len() - 1) == slug
            &&& record.last() == '\n'
        }),
{
    let record = proxy::audit_record(hour, slug);
    assert(record.take(hour.len() as int) =~= hour);
    assert(record.subrange(hour.len() as int + 1, record.len() - 1) =~= slug);
}

/// Stripping takes every such character at the end, and nothing else.
pub proof fn lemma_stripped_at_the_end(t: Seq<char>, c: char)
    ensures
        ({
            let kept = proxy::without_trailing(t, c);
            &&& kept.len() <= t.len()
            &&& kept == t.take(kept.len() as int)
            &&& kept.len() > 0 ==> kept.last() != c
            &&& forall|i: int| kept.len() <= i < t.len() ==> #[trigger] t[i] == c
        }),
    decreases t.len(),
{
    if t.len() > 0 && t.last() == c {
        let rest = t.drop_last();
        lemma_stripped_at_the_end(rest, c);
        let kept = proxy::without_trailing(t, c);
        assert(rest.take(kept.len() as int) =~= t.take(kept.len() as int));
        assert forall|i: int| kept.len() <= i < t.len() implies #[trigger] t[i] == c by {
            if i < rest.len() {
                assert(rest[i] == t[i]);
            }
        }
    } else {
        assert(t.take(t.len() as int) =~= t);
    }
}

/// A call asks for the models where it is a GET and its path ends there.
pub proof fn lemma_calls_for_the_models(call: proxy::Call, front: Seq<char>)
    ensures
        call.is_get && call.path@ == front + "/models"@ ==> call.asks_for_models(),
        call.asks_for_models() ==> call.is_get && call.path@.len() >= 7 && call.path@.skip(
            call.path@.len() - 7,
        ) == "/models"@,
{
    reveal_strlit("/models");
    let path = call.path@;
    if path == front + "/models"@ {
        assert(path.subrange(path.len() - 7, path.len() as int) =~= "/models"@);
    }
    if call.asks_for_models() {
        assert(path.skip(path.len() - 7) =~= path.subrange(path.len() - 7, path.len() as int));
    }
}

/// A line whose payload is no document keeps its text, but for the slug.
pub proof fn lemma_line_without_a_document_keeps_its_text(
    line: Seq<char>,
    slug: Seq<char>,
    alias: Seq<char>,
)
    requires
        rewrite::data_payload(line) matches Some(p) ==> p.len() == 0 || p == "[DONE]"@
            || json::json_read(vstd::utf8::encode_utf8(p)) is None,
    ensures
        rewrite::masked_line(line, slug, alias) == rewrite::replaced(line, slug, alias),
{
}

/// A refused request is answered with the reason.
pub proof fn lemma_refusal_gives_its_reason(why: Seq<char>)
    ensures
        text::begins_with(proxy::refusal_answer(why), "non-ZDR audit refused ("@ + why),
{
    let lead = "non-ZDR audit refused ("@ + why;
    assert(proxy::refusal_answer(why).subrange(0, lead.len() as int) =~= lead);
}

/// A refusal for want of a last day, and one for a last day that is over, are told apart, and the
/// second names the day.
pub proof fn lemma_refusals_by_their_cause(audit: proxy::NonZdrAudit, today: i64)
    ensures
        audit.expires_epoch_days is None ==> audit.refusal(today) == Some(
            "attestation carries no bounded lifetime"@,
        ),
        audit.expires_epoch_days matches Some(last) ==> (today > last ==> (audit.refusal(
            today,
        ) matches Some(why) && text::ends_with(why, crate::dates::expiry_text(last)))),
{
    if let Some(last) = audit.expires_epoch_days {
        if today > last {
            let why = audit.refusal(today)->Some_0;
            let day = crate::dates::expiry_text(last);
            assert(why.subrange(why.len() - day.len(), why.len() as int) =~= day);
        }
    }
}

} // verus!
