//! The line parser: one raw blueprint line to a record of name, depth and kind.

use vstd::prelude::*;
use vstd::std_specs::iter::IteratorSpec;
use vstd::utf8::*;

verus! {

/// The character that marks a directory when it ends a line.
pub const SEPARATOR: char = '/';

/// The character that indents a line, one per level of depth.
pub const INDENT: char = ' ';

/// What a blueprint line stands for.
#[derive(Debug, Clone, Copy, PartialEq, Eq, Structural)]
pub enum BlueprintType {
    File,
    Dir,
}

/// One parsed blueprint line.
#[derive(Debug)]
pub struct Blueprint {
    /// The entry's name, without indentation or directory marker.
    pub name: String,
    /// The number of leading spaces.
    pub depth_level: usize,
    pub pattern_type: BlueprintType,
}

/// A line that yields no entry: empty, or the separator alone.
pub open spec fn is_skipped_line(s: Seq<char>) -> bool {
    s.len() == 0 || s =~= seq![SEPARATOR]
}

/// `d` is the number of spaces that open `s`.
pub open spec fn is_depth_of(s: Seq<char>, d: int) -> bool {
    &&& 0 <= d <= s.len()
    &&& forall|i: int| 0 <= i < d ==> s[i] == INDENT
    &&& d < s.len() ==> s[d] != INDENT
}

/// The number of spaces that open `s`.
pub open spec fn depth_of(s: Seq<char>) -> int {
    choose|d: int| is_depth_of(s, d)
}

/// A line has one depth.
pub proof fn lemma_depth_unique(s: Seq<char>, d: int)
    requires
        is_depth_of(s, d),
    ensures
        depth_of(s) == d,
{
    let e = depth_of(s);
    assert(is_depth_of(s, e));
    if e < d {
        assert(s[e] == INDENT);
    } else if d < e {
        assert(s[d] == INDENT);
    }
}

/// The last character of `s` is the separator.
pub open spec fn ends_with_separator(s: Seq<char>) -> bool {
    s.len() > 0 && s.last() == SEPARATOR
}

/// The name that a line with `d` leading spaces carries: what follows the
/// indentation, less a final separator.
pub open spec fn name_of(s: Seq<char>, d: int) -> Seq<char> {
    if ends_with_separator(s) {
        s.subrange(d, s.len() - 1)
    } else {
        s.subrange(d, s.len() as int)
    }
}

/// The kind of entry that a line stands for.
pub open spec fn kind_of(s: Seq<char>) -> BlueprintType {
    if ends_with_separator(s) {
        BlueprintType::Dir
    } else {
        BlueprintType::File
    }
}

/// What `Blueprint::new` makes of a line that is not skipped.
pub open spec fn parses_as(s: Seq<char>, b: Blueprint) -> bool {
    &&& is_depth_of(s, b.depth_level as int)
    &&& b.name@ == name_of(s, b.depth_level as int)
    &&& b.pattern_type == kind_of(s)
}

proof fn lemma_encode_utf8_push(s: Seq<char>, c: char)
    ensures
        encode_utf8(s.push(c)) == encode_utf8(s) + encode_scalar(c as u32),
    decreases s.len(),
{
    if s.len() == 0 {
        assert(s.push(c).drop_first() =~= s);
        assert(encode_utf8(s.push(c)) =~= encode_utf8(s) + encode_scalar(c as u32));
    } else {
        assert(s.push(c).drop_first() =~= s.drop_first().push(c));
        lemma_encode_utf8_push(s.drop_first(), c);
        assert(encode_utf8(s.push(c)) =~= encode_utf8(s) + encode_scalar(c as u32));
    }
}

/// Relies on String::from_utf8: it succeeds exactly on valid UTF-8, with
/// the text that the bytes encode.
#[verifier::external_body]
fn string_from_utf8(bytes: Vec<u8>) -> (r: Option<String>)
    ensures
        r is Some <==> valid_utf8(bytes@),
        r matches Some(s) ==> s@ == decode_utf8(bytes@),
{
    String::from_utf8(bytes).ok()
}

impl Blueprint {
    /// Parses one line; `None` for a line that is empty or the separator
    /// alone.
    pub fn new(pattern: &str) -> (r: Option<Self>)
        ensures
            r is None <==> is_skipped_line(pattern@),
            r matches Some(b) ==> parses_as(pattern@, b),
            r matches Some(b) ==> (b.pattern_type == BlueprintType::Dir <==> ends_with_separator(
                pattern@,
            )),
    {
        let chars = chars_of(pattern);
        let count = chars.len();
        if count == 0 || (count == 1 && chars[0] == SEPARATOR) {
            proof {
                if count == 1 {
                    assert(pattern@ =~= seq![SEPARATOR]);
                }
            }
            return None;
        }
        let mut depth_level: usize = 0;
        while depth_level < count && chars[depth_level] == INDENT
            invariant
                chars@ == pattern@,
                count == chars.len(),
                depth_level <= count,
                forall|i: int| 0 <= i < depth_level ==> chars@[i] == INDENT,
            decreases count - depth_level,
        {
            depth_level += 1;
        }
        let pattern_type = if chars[count - 1] == SEPARATOR {
            BlueprintType::Dir
        } else {
            BlueprintType::File
        };
        let end: usize = if pattern_type == BlueprintType::Dir {
            count - 1
        } else {
            count
        };
        let mut filtered_bytes: Vec<u8> = Vec::new();
        let mut i: usize = depth_level;
        while i < end
            invariant
                chars@ == pattern@,
                depth_level <= i <= end <= count == chars.len(),
                filtered_bytes@ == encode_utf8(chars@.subrange(depth_level as int, i as int)),
            decreases end - i,
        {
            let mut b = char_to_bytes(chars[i]);
            proof {
                lemma_encode_utf8_push(chars@.subrange(depth_level as int, i as int), chars@[i as int]);
                assert(chars@.subrange(depth_level as int, i as int).push(chars@[i as int])
                    =~= chars@.subrange(depth_level as int, i + 1));
            }
            filtered_bytes.append(&mut b);
            i += 1;
        }
        proof {
            encode_utf8_valid_utf8(chars@.subrange(depth_level as int, end as int));
            encode_utf8_decode_utf8(chars@.subrange(depth_level as int, end as int));
        }
        let name = string_from_utf8(filtered_bytes)?;
        Some(Blueprint { name, depth_level, pattern_type })
    }
}

/// The UTF-8 encoding of `c`.
pub fn char_to_bytes(c: char) -> (r: Vec<u8>)
    ensures
        r@ == encode_scalar(c as u32),
{
    proof {
        char_is_scalar(c);
    }
    let v = c as u32;
    if v <= 0x7F {
        vec![(v & 0x7F) as u8]
    } else if v <= 0x7FF {
        vec![0xC0 | ((v >> 6) & 0x1F) as u8, 0x80 | (v & 0x3F) as u8]
    } else if v <= 0xFFFF {
        vec![
            0xE0 | ((v >> 12) & 0x0F) as u8,
            0x80 | ((v >> 6) & 0x3F) as u8,
            0x80 | (v & 0x3F) as u8,
        ]
    } else {
        vec![
            0xF0 | ((v >> 18) & 0x7) as u8,
            0x80 | ((v >> 12) & 0x3F) as u8,
            0x80 | ((v >> 6) & 0x3F) as u8,
            0x80 | (v & 0x3F) as u8,
        ]
    }
}

} // verus!

verus! {

fn chars_of(s: &str) -> (r: Vec<char>)
    ensures
        r@ == s@,
{
    let mut out: Vec<char> = Vec::new();
    let mut it = s.chars();
    loop
        invariant
            out@ + it.remaining() == s@,
            it.decrease() is Some,
        ensures
            out@ == s@,
        decreases it.decrease()->0,
    {
        match it.next() {
            Some(c) => out.push(c),
            None => {
                assert(out@ =~= out@ + it.remaining());
                break;
            },
        }
    }
    out
}

} // verus!
