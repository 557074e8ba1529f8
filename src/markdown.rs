use vstd::prelude::*;

use pulldown_cmark::{CodeBlockKind, Event, Parser, Tag};
use vstd::utf8::{decode_utf8, encode_utf8, valid_utf8};

verus! {

/// What the code-block logic reads of one markdown event.
#[derive(PartialEq, Eq, Debug)]
pub enum MdEvent {
    /// The start of a fenced code block, with its language.
    StartFenced(String),
    /// The start of an indented code block.
    StartIndented,
    /// The end of a code block of either kind.
    EndCodeBlock,
    Text(String),
    Other,
}

/// The language whose code blocks hold commands.
pub open spec fn console_lang() -> Seq<char> {
    "console"@
}

/// The events, with their byte ranges in the source, that pulldown-cmark
/// reads from `markdown`.
pub uninterp spec fn md_events(markdown: Seq<char>) -> Seq<(MdEvent, usize, usize)>;

/// Relies on pulldown-cmark's `Parser::new` and `Parser::into_offset_iter`:
/// the events of the markdown text with the byte range of each.
#[verifier::external_body]
fn markdown_events(markdown: &str) -> (r: Vec<(MdEvent, usize, usize)>)
    ensures
        r@ == md_events(markdown@),
{
    let mut out = Vec::new();
    for (event, range) in Parser::new(markdown).into_offset_iter() {
        let e = match event {
            Event::Start(Tag::CodeBlock(CodeBlockKind::Fenced(lang))) => MdEvent::StartFenced(lang.to_string()),
            Event::Start(Tag::CodeBlock(CodeBlockKind::Indented)) => MdEvent::StartIndented,
            Event::End(Tag::CodeBlock(_)) => MdEvent::EndCodeBlock,
            Event::Text(text) => MdEvent::Text(text.to_string()),
            _ => MdEvent::Other,
        };
        out.push((e, range.start, range.end));
    }
    out
}

/// Relies on `String::from_utf8`: it succeeds exactly on valid UTF-8, and
/// the string then holds the characters those bytes encode.
#[verifier::external_body]
fn string_from_utf8(bytes: Vec<u8>) -> (r: Option<String>)
    ensures
        r is Some <==> valid_utf8(bytes@),
        r matches Some(s) ==> s@ == decode_utf8(bytes@),
{
    String::from_utf8(bytes).ok()
}

/// Whether the events before position `i` leave us inside a console code block.
pub open spec fn in_console(events: Seq<(MdEvent, usize, usize)>, i: int) -> bool
    decreases i,
{
    if i <= 0 || i > events.len() {
        false
    } else {
        match events[i - 1].0 {
            MdEvent::StartFenced(lang) => lang@ == console_lang(),
            MdEvent::EndCodeBlock => false,
            _ => in_console(events, i - 1),
        }
    }
}

/// The texts inside console code blocks among the first `n` events, with
/// their byte ranges.
pub open spec fn blocks_upto(events: Seq<(MdEvent, usize, usize)>, n: int) -> Seq<
    (Seq<char>, usize, usize),
>
    decreases n,
{
    if n <= 0 || n > events.len() {
        Seq::empty()
    } else {
        let e = events[n - 1];
        let rest = blocks_upto(events, n - 1);
        match e.0 {
            MdEvent::Text(t) => if in_console(events, n - 1) {
                rest.push((t@, e.1, e.2))
            } else {
                rest
            },
            _ => rest,
        }
    }
}

/// The texts inside console code blocks, with their byte ranges.
pub open spec fn console_blocks_of(events: Seq<(MdEvent, usize, usize)>) -> Seq<
    (Seq<char>, usize, usize),
> {
    blocks_upto(events, events.len() as int)
}

pub open spec fn block_views(v: Seq<(String, usize, usize)>) -> Seq<(Seq<char>, usize, usize)> {
    v.map_values(|b: (String, usize, usize)| (b.0@, b.1, b.2))
}

/// The text of every console code block among `events`, with its byte range.
pub fn console_blocks(events: &Vec<(MdEvent, usize, usize)>) -> (r: Vec<(String, usize, usize)>)
    ensures
        block_views(r@) == console_blocks_of(events@),
{
    let console = "console".to_string();
    proof {
        reveal_strlit("console");
    }
    let n = events.len();
    let mut inside = false;
    let mut out: Vec<(String, usize, usize)> = Vec::new();
    let mut i: usize = 0;
    while i < n
        invariant
            n == events@.len(),
            console@ == console_lang(),
            0 <= i <= n,
            inside == in_console(events@, i as int),
            block_views(out@) == blocks_upto(events@, i as int),
        decreases n - i,
    {
        let ghost before = out@;
        match &events[i].0 {
            MdEvent::StartFenced(lang) => {
                inside = lang.eq(&console);
            },
            MdEvent::EndCodeBlock => {
                inside = false;
            },
            MdEvent::Text(text) => {
                if inside {
                    out.push((text.clone(), events[i].1, events[i].2));
                    assert(block_views(out@) =~= block_views(before).push(
                        (text@, events@[i as int].1, events@[i as int].2),
                    ));
                }
            },
            _ => {},
        }
        i = i + 1;
    }
    out
}

/// The text of every console code block in `markdown`, in order.
pub fn code_blocks(markdown: &str) -> (r: Vec<String>)
    ensures
        r@.len() == console_blocks_of(md_events(markdown@)).len(),
        forall|i: int|
            0 <= i < r@.len() ==> (#[trigger] r@[i])@ == console_blocks_of(md_events(markdown@))[i].0,
{
    let events = markdown_events(markdown);
    let blocks = console_blocks(&events);
    let n = blocks.len();
    let mut out: Vec<String> = Vec::new();
    let mut i: usize = 0;
    while i < n
        invariant
            n == blocks@.len(),
            block_views(blocks@) == console_blocks_of(md_events(markdown@)),
            0 <= i <= n,
            out@.len() == i,
            forall|k: int| 0 <= k < i ==> (#[trigger] out@[k])@ == blocks@[k].0@,
        decreases n - i,
    {
        out.push(blocks[i].0.clone());
        i = i + 1;
    }
    proof {
        assert forall|k: int| 0 <= k < n implies (#[trigger] out@[k])@ == console_blocks_of(
            md_events(markdown@),
        )[k].0 by {
            assert(block_views(blocks@)[k] == (blocks@[k].0@, blocks@[k].1, blocks@[k].2));
        }
    }
    out
}

/// Whether `s` is the text of one of the console code blocks of `markdown`.
pub open spec fn is_block_text(markdown: Seq<char>, s: Seq<char>) -> bool {
    exists|i: int|
        0 <= i < console_blocks_of(md_events(markdown)).len() && s == (#[trigger] console_blocks_of(
            md_events(markdown),
        )[i]).0
}

/// `fun` was called on a string holding `text`.
pub open spec fn visited<F: Fn(&str)>(fun: F, text: Seq<char>) -> bool {
    exists|s: &str| s@ == text && fun.ensures((s,), ())
}

/// Calls `fun` on the text of every console code block in `markdown`, in
/// order. `fun` needs to accept those texts only: it is called on no other.
pub fn for_each_code_block<F: Fn(&str)>(markdown: &str, fun: F)
    requires
        forall|s: &str| is_block_text(markdown@, s@) ==> fun.requires((s,)),
    ensures
        forall|i: int|
            0 <= i < console_blocks_of(md_events(markdown@)).len() ==> #[trigger] visited(
                fun,
                console_blocks_of(md_events(markdown@))[i].0,
            ),
{
    let blocks = code_blocks(markdown);
    let ghost texts = console_blocks_of(md_events(markdown@));
    let n = blocks.len();
    let mut i: usize = 0;
    while i < n
        invariant
            n == blocks@.len(),
            texts == console_blocks_of(md_events(markdown@)),
            n == texts.len(),
            forall|k: int| 0 <= k < n ==> (#[trigger] blocks@[k])@ == texts[k].0,
            forall|s: &str| is_block_text(markdown@, s@) ==> fun.requires((s,)),
            0 <= i <= n,
            forall|k: int| 0 <= k < i ==> #[trigger] visited(fun, texts[k].0),
        decreases n - i,
    {
        let text = blocks[i].as_str();
        assert(is_block_text(markdown@, text@)) by {
            assert(text@ == texts[i as int].0);
        }
        fun(text);
        assert(visited(fun, texts[i as int].0));
        i = i + 1;
    }
}

/// Byte ranges that lie inside a source of `len` bytes, each ending at or
/// before the next one starts.
pub open spec fn spans_fit(spans: Seq<(usize, usize)>, len: int) -> bool {
    &&& forall|k: int| 0 <= k < spans.len() ==> (#[trigger] spans[k]).0 <= spans[k].1 <= len
    &&& forall|k: int| 0 < k < spans.len() ==> spans[k - 1].1 <= (#[trigger] spans[k]).0
}

/// `src` from byte `pos` on, with range `spans[j]` replaced by `outs[j]` for
/// every `j` from `i` on.
pub open spec fn spliced(
    src: Seq<u8>,
    spans: Seq<(usize, usize)>,
    outs: Seq<Seq<u8>>,
    pos: int,
    i: int,
) -> Seq<u8>
    decreases spans.len() - i,
{
    if i < 0 || i >= spans.len() {
        src.subrange(pos, src.len() as int)
    } else {
        src.subrange(pos, spans[i].0 as int) + outs[i] + spliced(
            src,
            spans,
            outs,
            spans[i].1 as int,
            i + 1,
        )
    }
}

pub open spec fn byte_views(v: Seq<Vec<u8>>) -> Seq<Seq<u8>> {
    v.map_values(|b: Vec<u8>| b@)
}

fn append_range(out: &mut Vec<u8>, src: &[u8], from: usize, to: usize)
    requires
        from <= to <= src@.len(),
    ensures
        final(out)@ == old(out)@ + src@.subrange(from as int, to as int),
{
    let ghost start = out@;
    let mut i: usize = from;
    while i < to
        invariant
            from <= i <= to <= src@.len(),
            out@ == start + src@.subrange(from as int, i as int),
        decreases to - i,
    {
        out.push(src[i]);
        assert(src@.subrange(from as int, i + 1) =~= src@.subrange(from as int, i as int).push(
            src@[i as int],
        ));
        i = i + 1;
    }
}

/// Replaces each byte range `spans[j]` of `src` by `outs[j]`. Fails where
/// the two lists differ in length or the ranges do not fit in order.
pub fn splice(src: &[u8], spans: &Vec<(usize, usize)>, outs: &Vec<Vec<u8>>) -> (r: Option<Vec<u8>>)
    ensures
        r is Some <==> spans@.len() == outs@.len() && spans_fit(spans@, src@.len() as int),
        r matches Some(b) ==> b@ == spliced(src@, spans@, byte_views(outs@), 0, 0),
{
    let n = spans.len();
    if n != outs.len() {
        return None;
    }
    let mut k: usize = 0;
    let mut pos: usize = 0;
    while k < n
        invariant
            n == spans@.len(),
            0 <= k <= n,
            pos <= src@.len(),
            k == 0 ==> pos == 0,
            k > 0 ==> pos == spans@[k - 1].1,
            forall|j: int| 0 <= j < k ==> (#[trigger] spans@[j]).0 <= spans@[j].1 <= src@.len(),
            forall|j: int| 0 < j < k ==> spans@[j - 1].1 <= (#[trigger] spans@[j]).0,
        decreases n - k,
    {
        let (s, e) = spans[k];
        if s < pos || e < s || e > src.len() {
            return None;
        }
        pos = e;
        k = k + 1;
    }
    let ghost outs_v = byte_views(outs@);
    let mut out: Vec<u8> = Vec::new();
    let mut pos: usize = 0;
    let mut i: usize = 0;
    while i < n
        invariant
            n == spans@.len(),
            n == outs@.len(),
            outs_v == byte_views(outs@),
            spans_fit(spans@, src@.len() as int),
            0 <= i <= n,
            pos <= src@.len(),
            i == 0 ==> pos == 0,
            i > 0 ==> pos == spans@[i - 1].1,
            out@ + spliced(src@, spans@, outs_v, pos as int, i as int) == spliced(
                src@,
                spans@,
                outs_v,
                0,
                0,
            ),
        decreases n - i,
    {
        let (s, e) = spans[i];
        let ghost before = out@;
        append_range(&mut out, src, pos, s);
        let o = &outs[i];
        let m = o.len();
        let mut j: usize = 0;
        while j < m
            invariant
                m == o@.len(),
                0 <= j <= m,
                out@ == before + src@.subrange(pos as int, s as int) + o@.subrange(0, j as int),
            decreases m - j,
        {
            out.push(o[j]);
            assert(o@.subrange(0, j + 1) =~= o@.subrange(0, j as int).push(o@[j as int]));
            j = j + 1;
        }
        assert(o@.subrange(0, m as int) =~= o@);
        assert(outs_v[i as int] == o@);
        assert(spliced(src@, spans@, outs_v, pos as int, i as int) == src@.subrange(
            pos as int,
            s as int,
        ) + outs_v[i as int] + spliced(src@, spans@, outs_v, e as int, i + 1));
        assert(out@ + spliced(src@, spans@, outs_v, e as int, i + 1) =~= before + spliced(
            src@,
            spans@,
            outs_v,
            pos as int,
            i as int,
        ));
        pos = e;
        i = i + 1;
    }
    append_range(&mut out, src, pos, src.len());
    assert(out@ =~= spliced(src@, spans@, outs_v, 0, 0));
    Some(out)
}

/// The byte ranges of the console code blocks.
pub open spec fn spans_of(blocks: Seq<(Seq<char>, usize, usize)>) -> Seq<(usize, usize)> {
    blocks.map_values(|b: (Seq<char>, usize, usize)| (b.1, b.2))
}

/// The UTF-8 bytes of each string.
pub open spec fn utf8_of(v: Seq<String>) -> Seq<Seq<u8>> {
    v.map_values(|s: String| encode_utf8(s@))
}

/// The bytes of `markdown` with the text of its `j`-th console code block
/// replaced by `outputs[j]`.
pub open spec fn rewritten_bytes(markdown: Seq<char>, outputs: Seq<String>) -> Seq<u8> {
    spliced(
        encode_utf8(markdown),
        spans_of(console_blocks_of(md_events(markdown))),
        utf8_of(outputs),
        0,
        0,
    )
}

fn copy_bytes(b: &[u8]) -> (r: Vec<u8>)
    ensures
        r@ == b@,
{
    let n = b.len();
    let mut out: Vec<u8> = Vec::new();
    let mut i: usize = 0;
    while i < n
        invariant
            n == b@.len(),
            0 <= i <= n,
            out@ == b@.subrange(0, i as int),
        decreases n - i,
    {
        out.push(b[i]);
        assert(b@.subrange(0, i + 1) =~= b@.subrange(0, i as int).push(b@[i as int]));
        i = i + 1;
    }
    assert(b@.subrange(0, n as int) =~= b@);
    out
}

/// `markdown` with the text of its `j`-th console code block replaced by
/// `outputs[j]`. Fails where the number of outputs differs from the number
/// of blocks, where the blocks' byte ranges do not fit in order, or where
/// the result is not valid UTF-8.
pub fn rewrite_blocks(markdown: &str, outputs: &Vec<String>) -> (r: Option<String>)
    ensures
        r is Some <==> {
            &&& outputs@.len() == console_blocks_of(md_events(markdown@)).len()
            &&& spans_fit(
                spans_of(console_blocks_of(md_events(markdown@))),
                encode_utf8(markdown@).len() as int,
            )
            &&& valid_utf8(rewritten_bytes(markdown@, outputs@))
        },
        r matches Some(t) ==> t@ == decode_utf8(rewritten_bytes(markdown@, outputs@)),
{
    let events = markdown_events(markdown);
    let blocks = console_blocks(&events);
    let ghost bv = console_blocks_of(md_events(markdown@));
    let n = blocks.len();
    let mut spans: Vec<(usize, usize)> = Vec::new();
    let mut i: usize = 0;
    while i < n
        invariant
            n == blocks@.len(),
            block_views(blocks@) == bv,
            0 <= i <= n,
            spans@ == spans_of(bv).subrange(0, i as int),
        decreases n - i,
    {
        assert(bv[i as int] == (blocks@[i as int].0@, blocks@[i as int].1, blocks@[i as int].2));
        spans.push((blocks[i].1, blocks[i].2));
        assert(spans_of(bv).subrange(0, i + 1) =~= spans_of(bv).subrange(0, i as int).push(
            (blocks@[i as int].1, blocks@[i as int].2),
        ));
        i = i + 1;
    }
    assert(spans_of(bv).subrange(0, n as int) =~= spans_of(bv));
    let m = outputs.len();
    let mut outs: Vec<Vec<u8>> = Vec::new();
    let mut j: usize = 0;
    while j < m
        invariant
            m == outputs@.len(),
            0 <= j <= m,
            byte_views(outs@) == utf8_of(outputs@).subrange(0, j as int),
        decreases m - j,
    {
        let text = outputs[j].as_str();
        let b = copy_bytes(text.as_bytes());
        assert(b@ == encode_utf8(outputs@[j as int]@));
        let ghost before = outs@;
        outs.push(b);
        assert(byte_views(outs@) =~= byte_views(before).push(b@));
        assert(byte_views(outs@) =~= utf8_of(outputs@).subrange(0, j + 1));
        j = j + 1;
    }
    assert(utf8_of(outputs@).subrange(0, m as int) =~= utf8_of(outputs@));
    match splice(markdown.as_bytes(), &spans, &outs) {
        None => None,
        Some(bytes) => string_from_utf8(bytes),
    }
}

/// `out` is what `rewriter` returned for a string holding `text`.
pub open spec fn rewrote<F: Fn(&str) -> String>(rewriter: F, text: Seq<char>, out: String) -> bool {
    exists|s: &str| s@ == text && rewriter.ensures((s,), out)
}

/// What `rewrite` returns once the rewriter has answered `outputs` for the
/// console code blocks of `markdown`.
pub open spec fn rewrite_result(markdown: Seq<char>, outputs: Seq<String>, r: Option<String>) -> bool {
    &&& r is Some <==> spans_fit(
        spans_of(console_blocks_of(md_events(markdown))),
        encode_utf8(markdown).len() as int,
    ) && valid_utf8(rewritten_bytes(markdown, outputs))
    &&& r matches Some(t) ==> t@ == decode_utf8(rewritten_bytes(markdown, outputs))
}

/// `markdown` with the text of every console code block replaced by what
/// `rewriter` returns for it; see `rewrite_blocks` for when this fails.
pub fn rewrite<F: Fn(&str) -> String>(markdown: &str, rewriter: F) -> (r: Option<String>)
    requires
        forall|s: &str| rewriter.requires((s,)),
    ensures
        exists|outputs: Seq<String>|
            {
                &&& outputs.len() == console_blocks_of(md_events(markdown@)).len()
                &&& forall|i: int|
                    0 <= i < outputs.len() ==> #[trigger] rewrote(
                        rewriter,
                        console_blocks_of(md_events(markdown@))[i].0,
                        outputs[i],
                    )
                &&& rewrite_result(markdown@, outputs, r)
            },
{
    let blocks = code_blocks(markdown);
    let ghost texts = console_blocks_of(md_events(markdown@));
    let n = blocks.len();
    let mut outputs: Vec<String> = Vec::new();
    let mut i: usize = 0;
    while i < n
        invariant
            n == blocks@.len(),
            n == texts.len(),
            texts == console_blocks_of(md_events(markdown@)),
            forall|k: int| 0 <= k < n ==> (#[trigger] blocks@[k])@ == texts[k].0,
            forall|s: &str| rewriter.requires((s,)),
            0 <= i <= n,
            outputs@.len() == i,
            forall|k: int| 0 <= k < i ==> #[trigger] rewrote(rewriter, texts[k].0, outputs@[k]),
        decreases n - i,
    {
        let text = blocks[i].as_str();
        let out = rewriter(text);
        let ghost before = outputs@;
        outputs.push(out);
        assert(rewrote(rewriter, texts[i as int].0, outputs@[i as int])) by {
            assert(text@ == texts[i as int].0);
        }
        assert forall|k: int| 0 <= k < i + 1 implies #[trigger] rewrote(
            rewriter,
            texts[k].0,
            outputs@[k],
        ) by {
            if k < i {
                assert(outputs@[k] == before[k]);
            }
        }
        i = i + 1;
    }
    let r = rewrite_blocks(markdown, &outputs);
    assert(rewrite_result(markdown@, outputs@, r));
    assert(forall|k: int|
        0 <= k < outputs@.len() ==> #[trigger] rewrote(rewriter, texts[k].0, outputs@[k]));
    r
}

} // verus!
