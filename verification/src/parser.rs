//! The recursive-descent parser: a cursor over an immutable input string,
//! grammar functions for elements, attributes and text, and one public entry
//! point, `parse`.
//!
//! The grammar is stated once more, mathematically, as the `spec_parse_*`
//! functions over the input's character sequence; every parsing function's
//! contract ties what it returns and where it leaves the cursor to that
//! statement, error cases included.

use vstd::prelude::*;

use crate::dom::{
    element, lemma_nodes_view, lemma_nodes_view_push, nodes_view, text, AttributeMap, Node,
    SpecElementData, SpecNode, SpecNodeType,
};
use vstd::string::{StrSliceExecFns, StringExecFns};

verus! {

broadcast use vstd::seq::group_seq_axioms, vstd::std_specs::vec::group_vec_axioms;

/// Why a parse failed: a required literal character was absent, a closing tag
/// did not match its opening tag, or the input ended inside a construct.
#[derive(Debug, Clone, Copy, PartialEq, Eq)]
pub enum ParseErrorKind {
    UnexpectedChar,
    TagMismatch,
    UnexpectedEof,
}

/// A fatal parse failure: its kind and the cursor offset (in characters) at
/// which it was detected.
#[derive(Debug, Clone, Copy, PartialEq, Eq)]
pub struct ParseError {
    pub kind: ParseErrorKind,
    pub pos: usize,
}

/// What one grammar function yields on given input at a given offset: a value
/// and the offset just past it, or a failure and the offset of its detection.
pub enum ParseOutcome<T> {
    Parsed(T, int),
    Failed(ParseErrorKind, int),
}

/// The character sets the grammar scans runs of: whitespace, tag- and
/// attribute-name characters, or everything but one terminator.
#[derive(Clone, Copy)]
pub enum CharClass {
    Whitespace,
    Name,
    NotChar(char),
}

/// Whether `c` belongs to the class `cls`.
pub open spec fn class_allows(cls: CharClass, c: char) -> bool {
    match cls {
        CharClass::Whitespace => c == ' ' || c == '\t' || c == '\r' || c == '\n',
        CharClass::Name => (97 <= c as u32 && c as u32 <= 122) || (65 <= c as u32 && c as u32
            <= 90) || (48 <= c as u32 && c as u32 <= 57),
        CharClass::NotChar(d) => c != d,
    }
}

fn char_matches(cls: CharClass, c: char) -> (r: bool)
    ensures
        r == class_allows(cls, c),
{
    match cls {
        CharClass::Whitespace => c == ' ' || c == '\t' || c == '\r' || c == '\n',
        CharClass::Name => {
            let u = c as u32;
            (97 <= u && u <= 122) || (65 <= u && u <= 90) || (48 <= u && u <= 57)
        },
        CharClass::NotChar(d) => c != d,
    }
}

/// Where the maximal run of `cls` characters that starts at `pos` ends.
pub open spec fn scan_end(s: Seq<char>, pos: int, cls: CharClass) -> int
    decreases s.len() - pos,
{
    if 0 <= pos < s.len() && class_allows(cls, s[pos]) {
        scan_end(s, pos + 1, cls)
    } else {
        pos
    }
}

/// The scan ends within the input, every character it passed belongs to the
/// class, and the character it stopped at (if any) does not.
pub proof fn lemma_scan_end(s: Seq<char>, pos: int, cls: CharClass)
    requires
        0 <= pos <= s.len(),
    ensures
        pos <= scan_end(s, pos, cls) <= s.len(),
        forall|i: int| pos <= i < scan_end(s, pos, cls) ==> class_allows(cls, #[trigger] s[i]),
        scan_end(s, pos, cls) < s.len() ==> !class_allows(cls, s[scan_end(s, pos, cls)]),
    decreases s.len() - pos,
{
    if pos < s.len() && class_allows(cls, s[pos]) {
        lemma_scan_end(s, pos + 1, cls);
    }
}

/// The cursor: an offset in characters into the whole input text.
struct Parser {
    pos: usize,
    input: String,
}

impl Parser {
    /// The cursor lies within the input, whose length fits the machine.
    spec fn wf(&self) -> bool {
        self.pos <= self.input@.len() && self.input@.len() <= usize::MAX
    }

    /// Read the current character without consuming it.
    fn peek(&self) -> (c: char)
        requires
            self.wf(),
            self.pos < self.input@.len(),
        ensures
            c == self.input@[self.pos as int],
    {
        self.input.as_str().get_char(self.pos)
    }

    /// Whether the remaining input starts with `needle`.
    fn starts_with(&self, needle: &str) -> (r: bool)
        requires
            self.wf(),
        ensures
            r == needle@.is_prefix_of(self.input@.skip(self.pos as int)),
    {
        let n = needle.unicode_len();
        let total = self.input.as_str().unicode_len();
        if n > total - self.pos {
            return false;
        }
        let mut i: usize = 0;
        while i < n
            invariant
                self.wf(),
                i <= n,
                n == needle@.len(),
                self.pos + n <= self.input@.len(),
                forall|j: int| 0 <= j < i ==> needle@[j] == self.input@[self.pos + j],
            decreases n - i,
        {
            if needle.get_char(i) != self.input.as_str().get_char(self.pos + i) {
                proof {
                    let rest = self.input@.skip(self.pos as int);
                    assert(rest[i as int] == self.input@[self.pos + i]);
                    assert(needle@ != rest.subrange(0, n as int));
                }
                return false;
            }
            i += 1;
        }
        proof {
            let rest = self.input@.skip(self.pos as int);
            assert(needle@ =~= rest.subrange(0, n as int));
        }
        true
    }

    /// Whether all input has been consumed.
    fn is_at_end_of_file(&self) -> (r: bool)
        requires
            self.wf(),
        ensures
            r == (self.pos as int >= self.input@.len()),
    {
        self.pos >= self.input.as_str().unicode_len()
    }

    /// Return the current character and advance past it.
    fn next_char(&mut self) -> (c: char)
        requires
            old(self).wf(),
            old(self).pos < old(self).input@.len(),
        ensures
            final(self).wf(),
            final(self).input@ == old(self).input@,
            final(self).pos == old(self).pos + 1,
            c == old(self).input@[old(self).pos as int],
    {
        let c = self.input.as_str().get_char(self.pos);
        self.pos = self.pos + 1;
        c
    }

    /// Consume the maximal run of `cls` characters at the cursor and return it.
    fn consume_while(&mut self, cls: CharClass) -> (r: String)
        requires
            old(self).wf(),
        ensures
            final(self).wf(),
            final(self).input@ == old(self).input@,
            final(self).pos as int == scan_end(old(self).input@, old(self).pos as int, cls),
            old(self).pos <= final(self).pos,
            r@ == old(self).input@.subrange(old(self).pos as int, final(self).pos as int),
    {
        let ghost s = self.input@;
        let start = self.pos;
        loop
            invariant
                self.wf(),
                self.input@ == s,
                start <= self.pos,
                scan_end(s, start as int, cls) == scan_end(s, self.pos as int, cls),
            ensures
                self.wf(),
                self.input@ == s,
                start <= self.pos,
                self.pos as int == scan_end(s, start as int, cls),
            decreases s.len() - self.pos,
        {
            if self.is_at_end_of_file() {
                break;
            }
            let c = self.peek();
            if !char_matches(cls, c) {
                break;
            }
            let _c = self.next_char();
        }
        let sub = self.input.as_str().substring_char(start, self.pos);
        String::from_str(sub)
    }

    /// Consume and discard zero or more whitespace characters.
    fn consume_whitespace(&mut self)
        requires
            old(self).wf(),
        ensures
            final(self).wf(),
            final(self).input@ == old(self).input@,
            final(self).pos as int == scan_end(
                old(self).input@,
                old(self).pos as int,
                CharClass::Whitespace,
            ),
            old(self).pos <= final(self).pos,
    {
        let _ws = self.consume_while(CharClass::Whitespace);
    }

    /// Consume a tag or attribute name: a run of ASCII letters and digits.
    fn parse_tag_name(&mut self) -> (r: String)
        requires
            old(self).wf(),
        ensures
            final(self).wf(),
            final(self).input@ == old(self).input@,
            final(self).pos as int == scan_end(
                old(self).input@,
                old(self).pos as int,
                CharClass::Name,
            ),
            old(self).pos <= final(self).pos,
            r@ == old(self).input@.subrange(old(self).pos as int, final(self).pos as int),
    {
        self.consume_while(CharClass::Name)
    }
}

/// What parsing a quoted attribute value at `pos` yields: the text between a
/// quote and the next quote of the same kind.
pub open spec fn spec_parse_attr_value(s: Seq<char>, pos: int) -> ParseOutcome<Seq<char>> {
    if pos >= s.len() {
        ParseOutcome::Failed(ParseErrorKind::UnexpectedEof, pos)
    } else if s[pos] == '"' || s[pos] == '\'' {
        let close = scan_end(s, pos + 1, CharClass::NotChar(s[pos]));
        if close < s.len() {
            ParseOutcome::Parsed(s.subrange(pos + 1, close), close + 1)
        } else {
            ParseOutcome::Failed(ParseErrorKind::UnexpectedEof, close)
        }
    } else {
        ParseOutcome::Failed(ParseErrorKind::UnexpectedChar, pos)
    }
}

/// What parsing one `name="value"` pair at `pos` yields.
pub open spec fn spec_parse_attr(s: Seq<char>, pos: int) -> ParseOutcome<(Seq<char>, Seq<char>)> {
    let ne = scan_end(s, pos, CharClass::Name);
    if ne >= s.len() {
        ParseOutcome::Failed(ParseErrorKind::UnexpectedEof, ne)
    } else if s[ne] == '=' {
        match spec_parse_attr_value(s, ne + 1) {
            ParseOutcome::Parsed(v, p) => ParseOutcome::Parsed((s.subrange(pos, ne), v), p),
            ParseOutcome::Failed(k, p) => ParseOutcome::Failed(k, p),
        }
    } else {
        ParseOutcome::Failed(ParseErrorKind::UnexpectedChar, ne)
    }
}

/// What parsing an attribute list at `pos` yields, `acc` already gathered:
/// pairs are inserted in order (later names overwrite) until the closing `>`,
/// which is consumed.
pub open spec fn spec_parse_attributes(
    s: Seq<char>,
    pos: int,
    acc: Map<Seq<char>, Seq<char>>,
) -> ParseOutcome<Map<Seq<char>, Seq<char>>>
    decreases s.len() - pos,
{
    let w = scan_end(s, pos, CharClass::Whitespace);
    if w >= s.len() {
        ParseOutcome::Failed(ParseErrorKind::UnexpectedEof, w)
    } else if s[w] == '>' {
        ParseOutcome::Parsed(acc, w + 1)
    } else {
        match spec_parse_attr(s, w) {
            // An attribute occupies at least one character, so for
            // 0 <= pos <= s.len() the range test cannot fail; it stands so
            // that the recursion visibly decreases.
            ParseOutcome::Parsed(nv, p) => if pos < p <= s.len() {
                spec_parse_attributes(s, p, acc.insert(nv.0, nv.1))
            } else {
                ParseOutcome::Failed(ParseErrorKind::UnexpectedEof, p)
            },
            ParseOutcome::Failed(k, p) => ParseOutcome::Failed(k, p),
        }
    }
}

impl Parser {
    /// Parse a quoted value.
    fn parse_attr_value(&mut self) -> (r: Result<String, ParseError>)
        requires
            old(self).wf(),
        ensures
            final(self).wf(),
            final(self).input@ == old(self).input@,
            old(self).pos <= final(self).pos,
            (match spec_parse_attr_value(old(self).input@, old(self).pos as int) {
                ParseOutcome::Parsed(v, p) => r matches Ok(val) && val@ == v && final(self).pos
                    as int == p,
                ParseOutcome::Failed(k, p) => r matches Err(e) && e.kind == k && e.pos as int == p,
            }),
    {
        let ghost s = self.input@;
        if self.is_at_end_of_file() {
            return Err(ParseError { kind: ParseErrorKind::UnexpectedEof, pos: self.pos });
        }
        let open_quote = self.peek();
        if !(open_quote == '"' || open_quote == '\'') {
            return Err(ParseError { kind: ParseErrorKind::UnexpectedChar, pos: self.pos });
        }
        let _q = self.next_char();
        let value = self.consume_while(CharClass::NotChar(open_quote));
        if self.is_at_end_of_file() {
            return Err(ParseError { kind: ParseErrorKind::UnexpectedEof, pos: self.pos });
        }
        let _close = self.next_char();
        Ok(value)
    }

    /// Parse a single `name="value"` pair.
    fn parse_attr(&mut self) -> (r: Result<(String, String), ParseError>)
        requires
            old(self).wf(),
        ensures
            final(self).wf(),
            final(self).input@ == old(self).input@,
            old(self).pos <= final(self).pos,
            (match spec_parse_attr(old(self).input@, old(self).pos as int) {
                ParseOutcome::Parsed(nv, p) => r matches Ok(pair) && pair.0@ == nv.0 && pair.1@
                    == nv.1 && final(self).pos as int == p,
                ParseOutcome::Failed(k, p) => r matches Err(e) && e.kind == k && e.pos as int == p,
            }),
    {
        let ghost s = self.input@;
        let ghost pos0 = self.pos as int;
        let name = self.parse_tag_name();
        proof {
            lemma_scan_end(s, pos0, CharClass::Name);
        }
        if self.is_at_end_of_file() {
            return Err(ParseError { kind: ParseErrorKind::UnexpectedEof, pos: self.pos });
        }
        if self.peek() != '=' {
            return Err(ParseError { kind: ParseErrorKind::UnexpectedChar, pos: self.pos });
        }
        let _eq = self.next_char();
        match self.parse_attr_value() {
            Ok(value) => Ok((name, value)),
            Err(e) => Err(e),
        }
    }

    /// Parse a whitespace-separated list of `name="value"` pairs, consuming
    /// the closing `>`; a later duplicate name overwrites the earlier value.
    fn parse_attributes(&mut self) -> (r: Result<AttributeMap, ParseError>)
        requires
            old(self).wf(),
        ensures
            final(self).wf(),
            final(self).input@ == old(self).input@,
            old(self).pos <= final(self).pos,
            (match spec_parse_attributes(
                old(self).input@,
                old(self).pos as int,
                Map::empty(),
            ) {
                ParseOutcome::Parsed(m, p) => r matches Ok(am) && am@ == m && am.wf()
                    && final(self).pos as int == p,
                ParseOutcome::Failed(k, p) => r matches Err(e) && e.kind == k && e.pos as int == p,
            }),
    {
        let ghost s = self.input@;
        let ghost pos0 = self.pos as int;
        let mut attributes = AttributeMap::new();
        loop
            invariant
                self.wf(),
                self.input@ == s,
                s == old(self).input@,
                pos0 == old(self).pos as int,
                pos0 <= self.pos as int,
                attributes.wf(),
                spec_parse_attributes(s, pos0, Map::empty()) == spec_parse_attributes(
                    s,
                    self.pos as int,
                    attributes@,
                ),
            decreases s.len() - self.pos,
        {
            let ghost head = self.pos as int;
            self.consume_whitespace();
            proof {
                lemma_scan_end(s, head, CharClass::Whitespace);
            }
            if self.is_at_end_of_file() {
                return Err(ParseError { kind: ParseErrorKind::UnexpectedEof, pos: self.pos });
            }
            if self.peek() == '>' {
                let _gt = self.next_char();
                return Ok(attributes);
            }
            let ghost w = self.pos as int;
            match self.parse_attr() {
                Ok(nv) => {
                    proof {
                        lemma_scan_end(s, w, CharClass::Name);
                        let ne = scan_end(s, w, CharClass::Name);
                        lemma_scan_end(s, ne + 2, CharClass::NotChar(s[ne + 1]));
                    }
                    let (name, value) = nv;
                    attributes.insert(name, value);
                },
                Err(e) => {
                    return Err(e);
                },
            }
        }
    }
}

/// What parsing a text node at `pos` yields: the (possibly empty) run of
/// characters up to the next `<`, wrapped as a text node. Never fails.
pub open spec fn spec_parse_text(s: Seq<char>, pos: int) -> ParseOutcome<SpecNode> {
    let end = scan_end(s, pos, CharClass::NotChar('<'));
    ParseOutcome::Parsed(
        SpecNode { node_type: SpecNodeType::Text(s.subrange(pos, end)), children: Seq::empty() },
        end,
    )
}

/// What matching a closing tag `</tag>` at `pos` yields: the finished element,
/// or the failure, a name that differs from the opening tag's included.
pub open spec fn spec_parse_close_tag(
    s: Seq<char>,
    pos: int,
    tag: Seq<char>,
    attrs: Map<Seq<char>, Seq<char>>,
    children: Seq<SpecNode>,
) -> ParseOutcome<SpecNode> {
    if pos >= s.len() {
        ParseOutcome::Failed(ParseErrorKind::UnexpectedEof, pos)
    } else if s[pos] != '<' {
        ParseOutcome::Failed(ParseErrorKind::UnexpectedChar, pos)
    } else if pos + 1 >= s.len() {
        ParseOutcome::Failed(ParseErrorKind::UnexpectedEof, pos + 1)
    } else if s[pos + 1] != '/' {
        ParseOutcome::Failed(ParseErrorKind::UnexpectedChar, pos + 1)
    } else {
        let ce = scan_end(s, pos + 2, CharClass::Name);
        if s.subrange(pos + 2, ce) != tag {
            ParseOutcome::Failed(ParseErrorKind::TagMismatch, ce)
        } else if ce >= s.len() {
            ParseOutcome::Failed(ParseErrorKind::UnexpectedEof, ce)
        } else if s[ce] != '>' {
            ParseOutcome::Failed(ParseErrorKind::UnexpectedChar, ce)
        } else {
            ParseOutcome::Parsed(
                SpecNode {
                    node_type: SpecNodeType::Element(
                        SpecElementData { tag_name: tag, attributes: attrs },
                    ),
                    children,
                },
                ce + 1,
            )
        }
    }
}

/// What parsing an element at `pos` yields: `<`, tag name, attribute list
/// (which consumes the `>`), child nodes, and a matching closing tag.
pub open spec fn spec_parse_element(s: Seq<char>, pos: int) -> ParseOutcome<SpecNode>
    decreases s.len() - pos, 0int,
{
    if pos < 0 || pos >= s.len() {
        ParseOutcome::Failed(ParseErrorKind::UnexpectedEof, pos)
    } else if s[pos] != '<' {
        ParseOutcome::Failed(ParseErrorKind::UnexpectedChar, pos)
    } else {
        let ne = scan_end(s, pos + 1, CharClass::Name);
        let tag = s.subrange(pos + 1, ne);
        match spec_parse_attributes(s, ne, Map::empty()) {
            // The attribute list ends past the opening `<`, so for
            // 0 <= pos < s.len() the range test cannot fail; it stands so
            // that the recursion visibly decreases.
            ParseOutcome::Parsed(attrs, p1) => if pos < p1 <= s.len() {
                match spec_parse_nodes(s, p1, Seq::empty()) {
                    ParseOutcome::Parsed(children, p2) => spec_parse_close_tag(
                        s,
                        p2,
                        tag,
                        attrs,
                        children,
                    ),
                    ParseOutcome::Failed(k, p) => ParseOutcome::Failed(k, p),
                }
            } else {
                ParseOutcome::Failed(ParseErrorKind::UnexpectedEof, p1)
            },
            ParseOutcome::Failed(k, p) => ParseOutcome::Failed(k, p),
        }
    }
}

/// What parsing a single node at `pos` yields: an element if the next
/// character is `<`, a text node otherwise.
pub open spec fn spec_parse_node(s: Seq<char>, pos: int) -> ParseOutcome<SpecNode>
    decreases s.len() - pos, 1int,
{
    if pos < 0 || pos >= s.len() {
        ParseOutcome::Failed(ParseErrorKind::UnexpectedEof, pos)
    } else if s[pos] == '<' {
        spec_parse_element(s, pos)
    } else {
        spec_parse_text(s, pos)
    }
}

/// What parsing a sibling sequence at `pos` yields, `acc` already gathered:
/// whitespace is skipped before each node, and the sequence ends at the end
/// of input or just before a closing-tag marker `</`.
pub open spec fn spec_parse_nodes(
    s: Seq<char>,
    pos: int,
    acc: Seq<SpecNode>,
) -> ParseOutcome<Seq<SpecNode>>
    decreases s.len() - pos, 2int,
{
    let w = scan_end(s, pos, CharClass::Whitespace);
    // For 0 <= pos <= s.len() the scan stays within [pos, s.len()] and each
    // node occupies at least one character, so neither range test below can
    // fail; they stand so that the recursion visibly decreases.
    if w < pos || w > s.len() {
        ParseOutcome::Failed(ParseErrorKind::UnexpectedEof, w)
    } else if w == s.len() || (w + 2 <= s.len() && s[w] == '<' && s[w + 1] == '/') {
        ParseOutcome::Parsed(acc, w)
    } else {
        match spec_parse_node(s, w) {
            ParseOutcome::Parsed(n, p) => if pos < p <= s.len() {
                spec_parse_nodes(s, p, acc.push(n))
            } else {
                ParseOutcome::Failed(ParseErrorKind::UnexpectedEof, p)
            },
            ParseOutcome::Failed(k, p) => ParseOutcome::Failed(k, p),
        }
    }
}

/// What parsing a whole document yields: the top-level sibling sequence,
/// returned directly when it is a single node and wrapped in a synthetic
/// `html` element otherwise.
pub open spec fn spec_parse_document(s: Seq<char>) -> ParseOutcome<SpecNode> {
    match spec_parse_nodes(s, 0, Seq::empty()) {
        ParseOutcome::Parsed(ns, p) => if ns.len() == 1 {
            ParseOutcome::Parsed(ns[0], p)
        } else {
            ParseOutcome::Parsed(
                SpecNode {
                    node_type: SpecNodeType::Element(
                        SpecElementData { tag_name: "html"@, attributes: Map::empty() },
                    ),
                    children: ns,
                },
                p,
            )
        },
        ParseOutcome::Failed(k, p) => ParseOutcome::Failed(k, p),
    }
}

impl Parser {
    /// Parse a text node.
    fn parse_text(&mut self) -> (r: Node)
        requires
            old(self).wf(),
        ensures
            final(self).wf(),
            final(self).input@ == old(self).input@,
            old(self).pos <= final(self).pos,
            spec_parse_text(old(self).input@, old(self).pos as int) == ParseOutcome::Parsed(
                r@,
                final(self).pos as int,
            ),
    {
        let content = self.consume_while(CharClass::NotChar('<'));
        text(content)
    }

    /// Parse a single element: its open tag, contents, and closing tag.
    fn parse_element(&mut self) -> (r: Result<Node, ParseError>)
        requires
            old(self).wf(),
        ensures
            final(self).wf(),
            final(self).input@ == old(self).input@,
            old(self).pos <= final(self).pos,
            (match spec_parse_element(old(self).input@, old(self).pos as int) {
                ParseOutcome::Parsed(n, p) => r matches Ok(node) && node@ == n && final(self).pos
                    as int == p && old(self).pos < final(self).pos,
                ParseOutcome::Failed(k, p) => r matches Err(e) && e.kind == k && e.pos as int == p,
            }),
        decreases self.input@.len() - self.pos, 0int,
    {
        let ghost s = self.input@;
        let ghost pos0 = self.pos as int;
        if self.is_at_end_of_file() {
            return Err(ParseError { kind: ParseErrorKind::UnexpectedEof, pos: self.pos });
        }
        if self.peek() != '<' {
            return Err(ParseError { kind: ParseErrorKind::UnexpectedChar, pos: self.pos });
        }
        let _lt = self.next_char();
        let tag_name = self.parse_tag_name();
        proof {
            lemma_scan_end(s, pos0 + 1, CharClass::Name);
        }
        let attrs = match self.parse_attributes() {
            Ok(a) => a,
            Err(e) => return Err(e),
        };
        let children = match self.parse_nodes() {
            Ok(c) => c,
            Err(e) => return Err(e),
        };
        let ghost p2 = self.pos as int;
        if self.is_at_end_of_file() {
            return Err(ParseError { kind: ParseErrorKind::UnexpectedEof, pos: self.pos });
        }
        if self.peek() != '<' {
            return Err(ParseError { kind: ParseErrorKind::UnexpectedChar, pos: self.pos });
        }
        let _lt2 = self.next_char();
        if self.is_at_end_of_file() {
            return Err(ParseError { kind: ParseErrorKind::UnexpectedEof, pos: self.pos });
        }
        if self.peek() != '/' {
            return Err(ParseError { kind: ParseErrorKind::UnexpectedChar, pos: self.pos });
        }
        let _sl = self.next_char();
        let closing = self.parse_tag_name();
        proof {
            lemma_scan_end(s, p2 + 2, CharClass::Name);
        }
        if !(closing == tag_name) {
            return Err(ParseError { kind: ParseErrorKind::TagMismatch, pos: self.pos });
        }
        if self.is_at_end_of_file() {
            return Err(ParseError { kind: ParseErrorKind::UnexpectedEof, pos: self.pos });
        }
        if self.peek() != '>' {
            return Err(ParseError { kind: ParseErrorKind::UnexpectedChar, pos: self.pos });
        }
        let _gt = self.next_char();
        Ok(element(tag_name, attrs, children))
    }

    /// Parse a single node, dispatching on the next character.
    fn parse_node(&mut self) -> (r: Result<Node, ParseError>)
        requires
            old(self).wf(),
        ensures
            final(self).wf(),
            final(self).input@ == old(self).input@,
            old(self).pos <= final(self).pos,
            (match spec_parse_node(old(self).input@, old(self).pos as int) {
                ParseOutcome::Parsed(n, p) => r matches Ok(node) && node@ == n && final(self).pos
                    as int == p && old(self).pos < final(self).pos,
                ParseOutcome::Failed(k, p) => r matches Err(e) && e.kind == k && e.pos as int == p,
            }),
        decreases self.input@.len() - self.pos, 1int,
    {
        let ghost s = self.input@;
        let ghost pos0 = self.pos as int;
        if self.is_at_end_of_file() {
            return Err(ParseError { kind: ParseErrorKind::UnexpectedEof, pos: self.pos });
        }
        if self.peek() == '<' {
            self.parse_element()
        } else {
            proof {
                lemma_scan_end(s, pos0 + 1, CharClass::NotChar('<'));
            }
            Ok(self.parse_text())
        }
    }

    /// Parse a sequence of sibling nodes, in document order.
    fn parse_nodes(&mut self) -> (r: Result<Vec<Node>, ParseError>)
        requires
            old(self).wf(),
        ensures
            final(self).wf(),
            final(self).input@ == old(self).input@,
            old(self).pos <= final(self).pos,
            (match spec_parse_nodes(old(self).input@, old(self).pos as int, Seq::empty()) {
                ParseOutcome::Parsed(ns, p) => r matches Ok(v) && nodes_view(v@) == ns
                    && final(self).pos as int == p,
                ParseOutcome::Failed(k, p) => r matches Err(e) && e.kind == k && e.pos as int == p,
            }),
        decreases self.input@.len() - self.pos, 2int,
    {
        let ghost s = self.input@;
        let ghost pos0 = self.pos as int;
        let mut nodes: Vec<Node> = Vec::new();
        proof {
            lemma_nodes_view(nodes@);
            assert(nodes_view(nodes@) =~= Seq::<SpecNode>::empty());
        }
        loop
            invariant
                self.wf(),
                self.input@ == s,
                s == old(self).input@,
                pos0 == old(self).pos as int,
                pos0 <= self.pos as int,
                spec_parse_nodes(s, pos0, Seq::empty()) == spec_parse_nodes(
                    s,
                    self.pos as int,
                    nodes_view(nodes@),
                ),
            decreases s.len() - self.pos,
        {
            let ghost head = self.pos as int;
            self.consume_whitespace();
            proof {
                lemma_scan_end(s, head, CharClass::Whitespace);
            }
            let ghost w = self.pos as int;
            if self.is_at_end_of_file() {
                return Ok(nodes);
            }
            let close_marker = self.starts_with("</");
            proof {
                reveal_strlit("</");
                assert("</"@.len() == 2 && "</"@[0] == '<' && "</"@[1] == '/');
                let rest = s.skip(w);
                if close_marker {
                    assert("</"@ == rest.subrange(0, 2));
                    assert(rest.subrange(0, 2)[0] == s[w] && rest.subrange(0, 2)[1] == s[w + 1]);
                    assert(w + 2 <= s.len() && s[w] == '<' && s[w + 1] == '/');
                } else {
                    if w + 2 <= s.len() && s[w] == '<' && s[w + 1] == '/' {
                        assert("</"@ =~= rest.subrange(0, 2));
                        assert(false);
                    }
                }
            }
            if close_marker {
                return Ok(nodes);
            }
            match self.parse_node() {
                Ok(n) => {
                    let ghost prev = nodes@;
                    nodes.push(n);
                    proof {
                        lemma_nodes_view_push(prev, n);
                        assert(spec_parse_nodes(s, head, nodes_view(prev)) == spec_parse_nodes(
                            s,
                            self.pos as int,
                            nodes_view(nodes@),
                        ));
                    }
                },
                Err(e) => {
                    return Err(e);
                },
            }
        }
    }
}

/// Parse a markup document and return the root node: the sole top-level node
/// where there is exactly one, and a synthetic `html` element (empty
/// attributes, the top-level nodes as children, in order) otherwise. Fails
/// exactly where the grammar does, with the failure's kind and offset.
pub fn parse(source: String) -> (r: Result<Node, ParseError>)
    ensures
        (match spec_parse_document(source@) {
            ParseOutcome::Parsed(n, p) => r matches Ok(node) && node@ == n,
            ParseOutcome::Failed(k, p) => r matches Err(e) && e.kind == k && e.pos as int == p,
        }),
{
    // Measuring the length once shows that it fits the machine word, which
    // the cursor arithmetic relies on.
    let _total = source.as_str().unicode_len();
    let mut parser = Parser { pos: 0, input: source };
    let mut nodes = match parser.parse_nodes() {
        Ok(ns) => ns,
        Err(e) => return Err(e),
    };
    proof {
        lemma_nodes_view(nodes@);
    }
    if nodes.len() == 1 {
        let root = nodes.swap_remove(0);
        Ok(root)
    } else {
        Ok(element(String::from_str("html"), AttributeMap::new(), nodes))
    }
}

/// The sibling parse only ever appends: what it was handed stays in place at
/// the front of what it returns.
pub proof fn lemma_parse_nodes_extends(
    s: Seq<char>,
    pos: int,
    acc: Seq<SpecNode>,
    ns: Seq<SpecNode>,
    p: int,
)
    requires
        spec_parse_nodes(s, pos, acc) == ParseOutcome::<Seq<SpecNode>>::Parsed(ns, p),
    ensures
        acc.len() <= ns.len(),
        forall|i: int| 0 <= i < acc.len() ==> ns[i] == acc[i],
    decreases s.len() - pos,
{
    let w = scan_end(s, pos, CharClass::Whitespace);
    if w < pos || w > s.len() {
    } else if w == s.len() || (w + 2 <= s.len() && s[w] == '<' && s[w + 1] == '/') {
    } else {
        match spec_parse_node(s, w) {
            ParseOutcome::Parsed(n, p2) => {
                if pos < p2 <= s.len() {
                    lemma_parse_nodes_extends(s, p2, acc.push(n), ns, p);
                }
            },
            ParseOutcome::Failed(k, p2) => {},
        }
    }
}

/// For a well-formed single-root input — one whose top level parses to exactly
/// one node, an element — the parsed document is that element itself, and its
/// tag name is the outermost tag's name as it stands in the source.
pub proof fn lemma_single_root_document(s: Seq<char>, ns: Seq<SpecNode>, p: int)
    requires
        spec_parse_nodes(s, 0, Seq::empty()) == ParseOutcome::<Seq<SpecNode>>::Parsed(ns, p),
        ns.len() == 1,
        ns[0].node_type is Element,
    ensures
        spec_parse_document(s) == ParseOutcome::<SpecNode>::Parsed(ns[0], p),
        ({
            let w = scan_end(s, 0, CharClass::Whitespace);
            &&& 0 <= w < s.len() && s[w] == '<'
            &&& spec_parse_element(s, w) matches ParseOutcome::Parsed(root, q) && root == ns[0]
            &&& ns[0].node_type matches SpecNodeType::Element(ed) && ed.tag_name == s.subrange(
                w + 1,
                scan_end(s, w + 1, CharClass::Name),
            )
        }),
{
    lemma_scan_end(s, 0, CharClass::Whitespace);
    let w = scan_end(s, 0, CharClass::Whitespace);
    match spec_parse_node(s, w) {
        ParseOutcome::Parsed(n0, p0) => {
            if 0 < p0 <= s.len() {
                lemma_parse_nodes_extends(s, p0, Seq::empty().push(n0), ns, p);
                assert(ns[0] == n0);
            }
        },
        ParseOutcome::Failed(k, p0) => {},
    }
}

/// For an input whose top level holds zero or several sibling nodes, the
/// parsed document is a synthetic `html` element with empty attributes whose
/// children are exactly those nodes, in order.
pub proof fn lemma_document_wraps_fragments(s: Seq<char>, ns: Seq<SpecNode>, p: int)
    requires
        spec_parse_nodes(s, 0, Seq::empty()) == ParseOutcome::<Seq<SpecNode>>::Parsed(ns, p),
        ns.len() != 1,
    ensures
        ({
            &&& spec_parse_document(s) matches ParseOutcome::Parsed(root, q)
            &&& q == p
            &&& root.node_type matches SpecNodeType::Element(ed)
            &&& ed.tag_name == "html"@
            &&& ed.attributes == Map::<Seq<char>, Seq<char>>::empty()
            &&& root.children == ns
        }),
{
}

/// No text node in a parsed tree is a stray: each holds at least one
/// character, and its first character is not whitespace. Whitespace that
/// stands alone between tags is consumed, never wrapped as a text node.
pub open spec fn no_stray_text(n: SpecNode) -> bool
    decreases n,
{
    (match n.node_type {
        SpecNodeType::Text(t) => t.len() > 0 && !class_allows(CharClass::Whitespace, t[0]),
        SpecNodeType::Element(_) => true,
    }) && (forall|i: int| 0 <= i < n.children.len() ==> no_stray_text(#[trigger] n.children[i]))
}

proof fn lemma_parse_element_no_stray_text(s: Seq<char>, pos: int, n: SpecNode, p: int)
    requires
        spec_parse_element(s, pos) == ParseOutcome::<SpecNode>::Parsed(n, p),
    ensures
        no_stray_text(n),
    decreases s.len() - pos, 0int,
{
    let ne = scan_end(s, pos + 1, CharClass::Name);
    match spec_parse_attributes(s, ne, Map::empty()) {
        ParseOutcome::Parsed(attrs, p1) => {
            if pos < p1 <= s.len() {
                match spec_parse_nodes(s, p1, Seq::empty()) {
                    ParseOutcome::Parsed(children, p2) => {
                        lemma_parse_nodes_no_stray_text(s, p1, Seq::empty(), children, p2);
                    },
                    ParseOutcome::Failed(k, q) => {},
                }
            }
        },
        ParseOutcome::Failed(k, q) => {},
    }
}

proof fn lemma_parse_node_no_stray_text(s: Seq<char>, pos: int, n: SpecNode, p: int)
    requires
        0 <= pos < s.len(),
        !class_allows(CharClass::Whitespace, s[pos]),
        spec_parse_node(s, pos) == ParseOutcome::<SpecNode>::Parsed(n, p),
    ensures
        no_stray_text(n),
    decreases s.len() - pos, 1int,
{
    if s[pos] == '<' {
        lemma_parse_element_no_stray_text(s, pos, n, p);
    } else {
        lemma_scan_end(s, pos + 1, CharClass::NotChar('<'));
        let end = scan_end(s, pos, CharClass::NotChar('<'));
        assert(end >= pos + 1);
        assert(s.subrange(pos, end)[0] == s[pos]);
    }
}

proof fn lemma_parse_nodes_no_stray_text(
    s: Seq<char>,
    pos: int,
    acc: Seq<SpecNode>,
    ns: Seq<SpecNode>,
    p: int,
)
    requires
        0 <= pos <= s.len(),
        spec_parse_nodes(s, pos, acc) == ParseOutcome::<Seq<SpecNode>>::Parsed(ns, p),
        forall|i: int| 0 <= i < acc.len() ==> no_stray_text(#[trigger] acc[i]),
    ensures
        forall|i: int| 0 <= i < ns.len() ==> no_stray_text(#[trigger] ns[i]),
    decreases s.len() - pos, 2int,
{
    lemma_scan_end(s, pos, CharClass::Whitespace);
    let w = scan_end(s, pos, CharClass::Whitespace);
    if w == s.len() || (w + 2 <= s.len() && s[w] == '<' && s[w + 1] == '/') {
    } else {
        match spec_parse_node(s, w) {
            ParseOutcome::Parsed(n0, p0) => {
                if pos < p0 <= s.len() {
                    lemma_parse_node_no_stray_text(s, w, n0, p0);
                    assert(forall|i: int|
                        0 <= i < acc.push(n0).len() ==> no_stray_text(#[trigger] acc.push(n0)[i]));
                    lemma_parse_nodes_no_stray_text(s, p0, acc.push(n0), ns, p);
                }
            },
            ParseOutcome::Failed(k, p0) => {},
        }
    }
}

/// Whitespace between siblings, at the top level and inside elements, is
/// consumed and never appears as a standalone text node: every text node of a
/// parsed document is nonempty and starts with a non-whitespace character.
pub proof fn lemma_document_no_stray_text(s: Seq<char>, root: SpecNode, p: int)
    requires
        spec_parse_document(s) == ParseOutcome::<SpecNode>::Parsed(root, p),
    ensures
        no_stray_text(root),
{
    match spec_parse_nodes(s, 0, Seq::empty()) {
        ParseOutcome::Parsed(ns, q) => {
            lemma_parse_nodes_no_stray_text(s, 0, Seq::empty(), ns, q);
            if ns.len() != 1 {
                assert(root.children == ns);
            }
        },
        ParseOutcome::Failed(k, q) => {},
    }
}

} // verus!
