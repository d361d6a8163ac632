//! The UUID of a schematic, in its text.
use crate::text::{self, is_space, last_of};
use vstd::prelude::*;

verus! {

/// A direct child block of the document: where it stands in the text, whether
/// it could be read, and its head.
pub struct Block {
    pub start: usize,
    pub end: usize,
    pub readable: bool,
    pub head: Option<String>,
}

/// Whether the blocks lie within a text of that length.
pub open spec fn within(blocks: Seq<Block>, len: int) -> bool {
    forall|i: int|
        0 <= i < blocks.len() ==> (#[trigger] blocks[i]).start <= blocks[i].end && blocks[i].end
            <= len
}

/// Whether the head is that of the file's opening lines.
pub open spec fn is_preamble(head: Option<String>) -> bool {
    head matches Some(h) && (h@ == "version"@ || h@ == "generator"@ || h@ == "generator_version"@)
}

/// Position of the first readable block behind the opening lines.
pub open spec fn anchor_block(blocks: Seq<Block>) -> Option<int>
    decreases blocks.len(),
{
    if blocks.len() == 0 {
        None
    } else {
        match anchor_block(blocks.drop_last()) {
            Some(i) => Some(i),
            None => if blocks.last().readable && !is_preamble(blocks.last().head) {
                Some(blocks.len() - 1)
            } else {
                None
            },
        }
    }
}

/// Position of the first readable block of that head.
pub open spec fn block_headed(blocks: Seq<Block>, head: Seq<char>) -> Option<int>
    decreases blocks.len(),
{
    if blocks.len() == 0 {
        None
    } else {
        match block_headed(blocks.drop_last(), head) {
            Some(i) => Some(i),
            None => if blocks.last().readable && (blocks.last().head matches Some(h) && h@
                == head) {
                Some(blocks.len() - 1)
            } else {
                None
            },
        }
    }
}

/// Where the line of a position begins. On the first line that is the position
/// itself.
pub open spec fn line_start(s: Seq<char>, at: int) -> int {
    match last_of(s.take(at), '\n') {
        Some(i) => i + 1,
        None => at,
    }
}

/// Whether every character is white space.
pub open spec fn all_space(s: Seq<char>) -> bool {
    forall|i: int| 0 <= i < s.len() ==> is_space(#[trigger] s[i])
}

/// The line of a UUID.
pub open spec fn uuid_line(indent: Seq<char>, uuid: Seq<char>) -> Seq<char> {
    indent + "(uuid \""@ + uuid + "\")\n"@
}

/// The text with a UUID: as it is, if it has one, and else with a line for a
/// fresh one before its first block behind the opening lines.
pub open spec fn with_root_uuid(
    s: Seq<char>,
    found: Option<Seq<char>>,
    blocks: Seq<Block>,
    fresh: Seq<char>,
) -> Result<(Seq<char>, Seq<char>), Seq<char>> {
    match found {
        Some(uuid) => Ok((s, uuid)),
        None => match anchor_block(blocks) {
            None => Err("parent schematic has no UUID insertion anchor"@),
            Some(b) => {
                let anchor = blocks[b].start as int;
                let start = line_start(s, anchor);
                let indent = s.subrange(start, anchor);
                if all_space(indent) {
                    Ok((s.take(start) + uuid_line(indent, fresh) + s.skip(start), fresh))
                } else {
                    Err("parent schematic metadata is not line-oriented"@)
                }
            },
        },
    }
}

proof fn lemma_anchor_prefix(blocks: Seq<Block>, n: int)
    requires
        0 <= n <= blocks.len(),
        anchor_block(blocks.take(n)) is Some,
    ensures
        anchor_block(blocks) == anchor_block(blocks.take(n)),
    decreases blocks.len() - n,
{
    if n < blocks.len() {
        assert(blocks.take(n + 1).drop_last() =~= blocks.take(n));
        lemma_anchor_prefix(blocks, n + 1);
    } else {
        assert(blocks.take(n) =~= blocks);
    }
}

proof fn lemma_headed_prefix(blocks: Seq<Block>, head: Seq<char>, n: int)
    requires
        0 <= n <= blocks.len(),
        block_headed(blocks.take(n), head) is Some,
    ensures
        block_headed(blocks, head) == block_headed(blocks.take(n), head),
    decreases blocks.len() - n,
{
    if n < blocks.len() {
        assert(blocks.take(n + 1).drop_last() =~= blocks.take(n));
        lemma_headed_prefix(blocks, head, n + 1);
    } else {
        assert(blocks.take(n) =~= blocks);
    }
}

fn preamble(head: &Option<String>) -> (r: bool)
    ensures
        r == is_preamble(*head),
{
    match head {
        Some(h) => text::same(h.as_str(), "version") || text::same(h.as_str(), "generator")
            || text::same(h.as_str(), "generator_version"),
        None => false,
    }
}

fn find_anchor(blocks: &Vec<Block>) -> (r: Option<usize>)
    ensures
        match r {
            Some(i) => i < blocks@.len() && anchor_block(blocks@) == Some(i as int),
            None => anchor_block(blocks@) is None,
        },
{
    let mut i: usize = 0;
    while i < blocks.len()
        invariant
            i <= blocks@.len(),
            anchor_block(blocks@.take(i as int)) is None,
        decreases blocks@.len() - i,
    {
        proof {
            assert(blocks@.take(i + 1).drop_last() =~= blocks@.take(i as int));
            assert(blocks@.take(i + 1).last() == blocks@[i as int]);
        }
        if blocks[i].readable && !preamble(&blocks[i].head) {
            proof {
                lemma_anchor_prefix(blocks@, i + 1);
            }
            return Some(i);
        }
        i += 1;
    }
    proof {
        assert(blocks@.take(blocks@.len() as int) =~= blocks@);
    }
    None
}

fn find_headed(blocks: &Vec<Block>, head: &str) -> (r: Option<usize>)
    ensures
        match r {
            Some(i) => i < blocks@.len() && block_headed(blocks@, head@) == Some(i as int),
            None => block_headed(blocks@, head@) is None,
        },
{
    let mut i: usize = 0;
    while i < blocks.len()
        invariant
            i <= blocks@.len(),
            block_headed(blocks@.take(i as int), head@) is None,
        decreases blocks@.len() - i,
    {
        proof {
            assert(blocks@.take(i + 1).drop_last() =~= blocks@.take(i as int));
            assert(blocks@.take(i + 1).last() == blocks@[i as int]);
        }
        let hit = blocks[i].readable && match &blocks[i].head {
            Some(h) => text::same(h.as_str(), head),
            None => false,
        };
        if hit {
            proof {
                lemma_headed_prefix(blocks@, head@, i + 1);
            }
            return Some(i);
        }
        i += 1;
    }
    proof {
        assert(blocks@.take(blocks@.len() as int) =~= blocks@);
    }
    None
}

fn blank(chars: &Vec<char>, from: usize, to: usize) -> (r: bool)
    requires
        from <= to <= chars@.len(),
    ensures
        r == all_space(chars@.subrange(from as int, to as int)),
{
    let ghost part = chars@.subrange(from as int, to as int);
    let mut i: usize = from;
    while i < to
        invariant
            from <= i <= to <= chars@.len(),
            part == chars@.subrange(from as int, to as int),
            forall|j: int| 0 <= j < i - from ==> is_space(#[trigger] part[j]),
        decreases to - i,
    {
        proof {
            assert(part[i - from] == chars@[i as int]);
        }
        if !text::space(chars[i]) {
            return false;
        }
        i += 1;
    }
    true
}

/// The text with a UUID, and that UUID. `found` is the one that it has
/// already; `fresh` is used where there is none.
pub fn ensure_source_root_uuid(
    source: &str,
    found: &Option<String>,
    blocks: &Vec<Block>,
    fresh: &str,
) -> (r: Result<(String, String), String>)
    requires
        within(blocks@, source@.len() as int),
    ensures
        match r {
            Ok(p) => with_root_uuid(
                source@,
                crate::schematic::text_option(*found),
                blocks@,
                fresh@,
            ) == Ok::<(Seq<char>, Seq<char>), Seq<char>>((p.0@, p.1@)),
            Err(e) => with_root_uuid(
                source@,
                crate::schematic::text_option(*found),
                blocks@,
                fresh@,
            ) == Err::<(Seq<char>, Seq<char>), Seq<char>>(e@),
        },
{
    if let Some(uuid) = found {
        return Ok((source.to_owned(), uuid.clone()));
    }
    let b: usize = match find_anchor(blocks) {
        Some(b) => b,
        None => {
            return Err("parent schematic has no UUID insertion anchor".to_owned());
        },
    };
    let chars = text::chars_of(source);
    let anchor: usize = blocks[b].start;
    let before = text::chars_of(text::slice_text(&chars, 0, anchor).as_str());
    proof {
        assert(source@.subrange(0, anchor as int) =~= source@.take(anchor as int));
        text::lemma_last_of_range(source@.take(anchor as int), '\n');
    }
    let start: usize = match text::rfind_char(&before, '\n') {
        Some(i) => i + 1,
        None => anchor,
    };
    if !blank(&chars, start, anchor) {
        return Err("parent schematic metadata is not line-oriented".to_owned());
    }
    let indent = text::slice_text(&chars, start, anchor);
    let mut out = text::slice_text(&chars, 0, start);
    out.append(indent.as_str());
    out.append("(uuid \"");
    out.append(fresh);
    out.append("\")\n");
    out.append(text::slice_text(&chars, start, chars.len()).as_str());
    proof {
        assert(source@.subrange(0, start as int) =~= source@.take(start as int));
        assert(source@.subrange(start as int, source@.len() as int) =~= source@.skip(start as int));
        assert(out@ =~= source@.take(start as int) + uuid_line(indent@, fresh@) + source@.skip(
            start as int,
        ));
    }
    Ok((out, fresh.to_owned()))
}

/// The text in which the first UUID block holds the given one. Without such a
/// block a line with it is inserted, as for a text without a UUID.
pub open spec fn with_other_root_uuid(
    source: Seq<char>,
    blocks: Seq<Block>,
    uuid: Seq<char>,
) -> Result<Seq<char>, Seq<char>> {
    match block_headed(blocks, "uuid"@) {
        Some(b) => Ok(
            source.take(blocks[b].start as int) + "(uuid \""@ + uuid + "\")"@ + source.skip(
                blocks[b].end as int,
            ),
        ),
        None => match with_root_uuid(source, None, blocks, uuid) {
            Ok(p) => Ok(p.0),
            Err(e) => Err(e),
        },
    }
}

/// The text with the given UUID in place of its own, or with that one where it
/// has none.
pub fn replace_source_root_uuid(source: &str, blocks: &Vec<Block>, uuid: &str) -> (r: Result<
    String,
    String,
>)
    requires
        within(blocks@, source@.len() as int),
    ensures
        match r {
            Ok(t) => with_other_root_uuid(source@, blocks@, uuid@) == Ok::<Seq<char>, Seq<char>>(
                t@,
            ),
            Err(e) => with_other_root_uuid(source@, blocks@, uuid@) == Err::<Seq<char>, Seq<char>>(
                e@,
            ),
        },
{
    let b: usize = match find_headed(blocks, "uuid") {
        Some(b) => b,
        None => {
            return match ensure_source_root_uuid(source, &None, blocks, uuid) {
                Ok((t, _)) => Ok(t),
                Err(e) => Err(e),
            };
        },
    };
    let chars = text::chars_of(source);
    let from: usize = blocks[b].start;
    let to: usize = blocks[b].end;
    let mut out = text::slice_text(&chars, 0, from);
    out.append("(uuid \"");
    out.append(uuid);
    out.append("\")");
    out.append(text::slice_text(&chars, to, chars.len()).as_str());
    proof {
        assert(source@.subrange(0, from as int) =~= source@.take(from as int));
        assert(source@.subrange(to as int, source@.len() as int) =~= source@.skip(to as int));
    }
    Ok(out)
}

// ─── Laws ─────────────────────────────────────────────────────────────────

/// The anchor is the first block that could be read and is not one of the
/// opening lines: version, generator and version of the generator.
pub proof fn law_anchor_is_the_first_block_behind_the_opening(blocks: Seq<Block>)
    ensures
        match anchor_block(blocks) {
            Some(i) => 0 <= i < blocks.len() && blocks[i].readable && !is_preamble(blocks[i].head)
                && forall|j: int|
                0 <= j < i ==> !(#[trigger] blocks[j]).readable || is_preamble(blocks[j].head),
            None => forall|j: int|
                0 <= j < blocks.len() ==> !(#[trigger] blocks[j]).readable || is_preamble(
                    blocks[j].head,
                ),
        },
    decreases blocks.len(),
{
    if blocks.len() > 0 {
        let rest = blocks.drop_last();
        law_anchor_is_the_first_block_behind_the_opening(rest);
        assert forall|j: int| 0 <= j < rest.len() implies (#[trigger] blocks[j]) == rest[j] by {}
    }
}

/// A text that has a UUID is left as it is. One that has none gets one line with
/// the fresh one, before the line of the anchor, and is otherwise unchanged.
pub proof fn law_root_uuid_is_added_once(
    s: Seq<char>,
    found: Option<Seq<char>>,
    blocks: Seq<Block>,
    fresh: Seq<char>,
)
    requires
        within(blocks, s.len() as int),
    ensures
        found matches Some(uuid) ==> with_root_uuid(s, found, blocks, fresh) == Ok::<
            (Seq<char>, Seq<char>),
            Seq<char>,
        >((s, uuid)),
        found is None ==> (with_root_uuid(s, found, blocks, fresh) matches Ok(p) ==> p.1 == fresh
            && exists|at: int, indent: Seq<char>|
            #![trigger s.take(at), uuid_line(indent, fresh)]
            0 <= at <= s.len() && p.0 == s.take(at) + uuid_line(indent, fresh) + s.skip(at)
                && indent.is_prefix_of(s.skip(at))),
{
    law_anchor_is_the_first_block_behind_the_opening(blocks);
    if found is None {
        if let Some(b) = anchor_block(blocks) {
            let anchor = blocks[b].start as int;
            let start = line_start(s, anchor);
            let before = s.take(anchor);
            text::lemma_last_of_range(before, '\n');
            assert(0 <= start <= anchor);
            let indent = s.subrange(start, anchor);
            assert(s.skip(start).subrange(0, indent.len() as int) =~= indent);
            if with_root_uuid(s, found, blocks, fresh) is Ok {
                let p = with_root_uuid(s, found, blocks, fresh)->Ok_0;
                assert(p.0 == s.take(start) + uuid_line(indent, fresh) + s.skip(start));
            }
        }
    }
}

/// Where a text has a UUID block, the other UUID takes the place of that block
/// and of nothing else.
pub proof fn law_root_uuid_is_replaced_in_place(
    source: Seq<char>,
    blocks: Seq<Block>,
    uuid: Seq<char>,
    b: int,
)
    requires
        within(blocks, source.len() as int),
        block_headed(blocks, "uuid"@) == Some(b),
    ensures
        0 <= b < blocks.len(),
        blocks[b].head matches Some(h) && h@ == "uuid"@,
        with_other_root_uuid(source, blocks, uuid) == Ok::<Seq<char>, Seq<char>>(
            source.take(blocks[b].start as int) + "(uuid \""@ + uuid + "\")"@ + source.skip(
                blocks[b].end as int,
            ),
        ),
{
    lemma_headed(blocks, "uuid"@);
}

proof fn lemma_headed(blocks: Seq<Block>, head: Seq<char>)
    ensures
        block_headed(blocks, head) matches Some(i) ==> 0 <= i < blocks.len() && (
        blocks[i].head matches Some(h) && h@ == head),
    decreases blocks.len(),
{
    if blocks.len() > 0 {
        lemma_headed(blocks.drop_last(), head);
    }
}

} // verus!
