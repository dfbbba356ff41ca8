//! Finds where in the areas text a node or a connection was declared.
//!
//! The text is searched with patterns that are anchored at the start of a
//! line. The search itself is the `regex` crate's, and all it is relied on for
//! is to propose offsets: an offset is reported only after the line that starts
//! there has been read here and found to be the declaration that was asked for.

use vstd::prelude::*;
use vstd::string::*;
use vstd::utf8::{encode_utf8, is_ascii_chars_encode_utf8};
use crate::graph::{Connection, ConnectionType, ConnectionView, Node};
use crate::search::{
    anchor_pattern, anchor_pattern_for, connection_pattern, connection_pattern_for, match_starts,
    regex_match_starts,
};

verus! {

/// Line and character location inside a text file.
#[derive(Clone, Copy, Debug, PartialEq, Eq, Structural)]
pub struct SourceLocation {
    /// The number of line feeds before the location.
    pub line: usize,
    /// The number of spaces that the declaration is indented by.
    pub char: usize,
}

/// The number of line feeds among the first `index` bytes of the text.
pub open spec fn newlines_before(text: Seq<u8>, index: int) -> nat
    decreases index,
{
    if index <= 0 {
        0
    } else if text[index - 1] == 0x0a {
        newlines_before(text, index - 1) + 1
    } else {
        newlines_before(text, index - 1)
    }
}

/// The first index from `from` on that holds no space, or the length of the
/// text if only spaces follow.
pub open spec fn skip_spaces(text: Seq<u8>, from: int) -> int
    decreases text.len() - from,
{
    if 0 <= from < text.len() && text[from] == 0x20 {
        skip_spaces(text, from + 1)
    } else {
        from
    }
}

/// The first index from `from` on that holds neither a space nor a tab, or
/// the length of the text if nothing else follows.
pub open spec fn skip_blanks(text: Seq<u8>, from: int) -> int
    decreases text.len() - from,
{
    if 0 <= from < text.len() && (text[from] == 0x20 || text[from] == 0x09) {
        skip_blanks(text, from + 1)
    } else {
        from
    }
}

/// How far after `index` the first byte that is no space stands, or 0 if only
/// spaces follow.
pub open spec fn indentation(text: Seq<u8>, index: int) -> int {
    if skip_spaces(text, index) < text.len() {
        skip_spaces(text, index) - index
    } else {
        0
    }
}

/// The location that the byte offset `index` is reported as.
pub open spec fn location_at(text: Seq<u8>, index: int) -> SourceLocation {
    SourceLocation {
        line: newlines_before(text, index) as usize,
        char: indentation(text, index) as usize,
    }
}

/// A line of the text starts at `at`.
pub open spec fn is_line_start(text: Seq<u8>, at: int) -> bool {
    at == 0 || (0 < at <= text.len() && text[at - 1] == 0x0a)
}

/// The bytes of `word` stand in the text at `at`.
pub open spec fn word_at(text: Seq<u8>, at: int, word: Seq<u8>) -> bool {
    0 <= at && at + word.len() <= text.len() && text.subrange(at, at + word.len()) == word
}

/// The bytes of `word` stand somewhere in the text.
pub open spec fn occurs(text: Seq<u8>, word: Seq<u8>) -> bool {
    exists|at: int| word_at(text, at, word)
}

/// A byte that a name may go on with: an ASCII letter or digit, `_` or `.`.
pub open spec fn is_name_byte(byte: u8) -> bool {
    (0x30 <= byte <= 0x39) || (0x41 <= byte <= 0x5a) || (0x61 <= byte <= 0x7a) || byte == 0x5f
        || byte == 0x2e
}

/// After any spaces from `at` on, the text holds `name`, and the name ends
/// there: no byte that a name may go on with follows it.
pub open spec fn names_at(text: Seq<u8>, at: int, name: Seq<u8>) -> bool {
    let start = skip_spaces(text, at);
    let end = start + name.len();
    word_at(text, start, name) && (end == text.len() || !is_name_byte(text[end]))
}

/// The text holds at `at` a declaration of `name`: the keyword, one or more
/// spaces, and the name in full.
pub open spec fn declares(text: Seq<u8>, at: int, keyword: Seq<u8>, name: Seq<u8>) -> bool {
    let after = at + keyword.len();
    word_at(text, at, keyword) && after < text.len() && text[after] == 0x20 && names_at(
        text,
        after,
        name,
    )
}

/// The bytes of the keyword that opens the declaration of an anchor.
pub open spec fn anchor_keyword() -> Seq<u8> {
    encode_utf8("anchor"@)
}

/// The line that starts at `at` declares the anchor `name`.
pub open spec fn declares_anchor(text: Seq<u8>, at: int, name: Seq<u8>) -> bool {
    is_line_start(text, at) && declares(text, at, anchor_keyword(), name)
}

/// The line that starts at `at` declares, after any indentation, a connection
/// of the given kind to `name`: with the keyword `conn` one to an anchor, with
/// `pickup` or `quest` one to a terminal node.
pub open spec fn declares_connection(
    text: Seq<u8>,
    at: int,
    kind: ConnectionType,
    name: Seq<u8>,
) -> bool {
    let keyword = skip_blanks(text, at);
    is_line_start(text, at) && match kind {
        ConnectionType::Branch => declares(text, keyword, encode_utf8("conn"@), name),
        ConnectionType::Leaf => declares(text, keyword, encode_utf8("pickup"@), name) || declares(
            text,
            keyword,
            encode_utf8("quest"@),
            name,
        ),
    }
}

/// A line that starts with the keyword `anchor` starts at `at`.
pub open spec fn anchor_at(text: Seq<u8>, at: int) -> bool {
    is_line_start(text, at) && word_at(text, at, anchor_keyword())
}

/// Where the last anchor line starts whose keyword ends at or before `limit`, or
/// -1 if there is none.
pub open spec fn nearest_anchor(text: Seq<u8>, limit: int) -> int
    decreases limit,
{
    if limit <= 0 || limit < anchor_keyword().len() {
        -1
    } else if anchor_at(text, limit - anchor_keyword().len()) {
        limit - anchor_keyword().len()
    } else {
        nearest_anchor(text, limit - 1)
    }
}

/// The nearest anchor line before the offset `found` names the anchor `name`:
/// after the keyword and any spaces, the name stands there in full.
pub open spec fn declared_under(text: Seq<u8>, found: int, name: Seq<u8>) -> bool {
    nearest_anchor(text, found) >= 0 && names_at(
        text,
        nearest_anchor(text, found) + anchor_keyword().len(),
        name,
    )
}

/// The first of the offsets `starts[from..]` at which a line declares the
/// anchor `name`.
pub open spec fn first_anchor_line(
    text: Seq<u8>,
    starts: Seq<usize>,
    name: Seq<u8>,
    from: int,
) -> Option<usize>
    decreases starts.len() - from,
{
    if from < 0 || from >= starts.len() {
        None
    } else if declares_anchor(text, starts[from] as int, name) {
        Some(starts[from])
    } else {
        first_anchor_line(text, starts, name, from + 1)
    }
}

/// The line at `at` declares a connection of the given kind to `target`, and
/// the nearest anchor line before it names `source`.
pub open spec fn connects(
    text: Seq<u8>,
    at: int,
    kind: ConnectionType,
    source: Seq<u8>,
    target: Seq<u8>,
) -> bool {
    declares_connection(text, at, kind, target) && declared_under(text, at, source)
}

/// The first of the offsets `starts[from..]` at which a line declares a
/// connection of the given kind from the anchor `source` to `target`.
pub open spec fn first_connection_line(
    text: Seq<u8>,
    starts: Seq<usize>,
    kind: ConnectionType,
    source: Seq<u8>,
    target: Seq<u8>,
    from: int,
) -> Option<usize>
    decreases starts.len() - from,
{
    if from < 0 || from >= starts.len() {
        None
    } else if connects(text, starts[from] as int, kind, source, target) {
        Some(starts[from])
    } else {
        first_connection_line(text, starts, kind, source, target, from + 1)
    }
}

/// Where the anchor `name` is declared in `text`: the location of the first
/// match of its pattern at which a line declares it.
pub open spec fn node_location(name: Seq<char>, text: Seq<char>) -> Option<SourceLocation> {
    match regex_match_starts(anchor_pattern(name), text) {
        Some(starts) => match first_anchor_line(encode_utf8(text), starts, encode_utf8(name), 0) {
            Some(found) => Some(location_at(encode_utf8(text), found as int)),
            None => None,
        },
        None => None,
    }
}

/// Where a connection of the given kind from the anchor `from` to `to` is
/// declared in `text`: the location of the first match of the connection's
/// pattern at which a line declares it under a declaration of `from`.
pub open spec fn declaration_location(
    kind: ConnectionType,
    from: Seq<char>,
    to: Seq<char>,
    text: Seq<char>,
) -> Option<SourceLocation> {
    match regex_match_starts(connection_pattern(kind, to), text) {
        Some(starts) => match first_connection_line(
            encode_utf8(text),
            starts,
            kind,
            encode_utf8(from),
            encode_utf8(to),
            0,
        ) {
            Some(found) => Some(location_at(encode_utf8(text), found as int)),
            None => None,
        },
        None => None,
    }
}

/// Where a connection is declared in `text`.
///
/// `inverse` chooses the declaration that is looked for first: from `start` to
/// `end` if it is `false`, from `end` to `start` if it is `true`. Of a
/// connection that goes both ways that declaration alone is reported. A
/// unidirectional one has a single declaration, so the other direction is
/// looked for when the first is not found.
pub open spec fn connection_location(
    connection: ConnectionView,
    text: Seq<char>,
    inverse: bool,
) -> Option<SourceLocation> {
    let forward = declaration_location(connection.kind, connection.start, connection.end, text);
    let backward = declaration_location(connection.kind, connection.end, connection.start, text);
    let first = if inverse {
        backward
    } else {
        forward
    };
    let second = if inverse {
        forward
    } else {
        backward
    };
    if first is Some || !connection.unidirectional {
        first
    } else {
        second
    }
}

/// `skip_spaces` stays within the text, passes over spaces only, and stops at
/// the first byte that is none.
pub proof fn lemma_skip_spaces(text: Seq<u8>, from: int)
    requires
        0 <= from <= text.len(),
    ensures
        from <= skip_spaces(text, from) <= text.len(),
        forall|i: int| from <= i < skip_spaces(text, from) ==> text[i] == 0x20,
        skip_spaces(text, from) < text.len() ==> text[skip_spaces(text, from)] != 0x20,
    decreases text.len() - from,
{
    if from < text.len() && text[from] == 0x20 {
        lemma_skip_spaces(text, from + 1);
    }
}

/// The reported line counts no more line feeds than there are bytes before the
/// offset. The reported character is the number of spaces between the offset
/// and the first byte that is no space, and 0 where only spaces follow.
pub proof fn lemma_location_at(text: Seq<u8>, index: int)
    requires
        0 <= index <= text.len(),
    ensures
        newlines_before(text, index) <= index,
        0 <= indentation(text, index) <= text.len() - index,
        forall|i: int| index <= i < index + indentation(text, index) ==> text[i] == 0x20,
        (exists|i: int| index <= i < text.len() && text[i] != 0x20) ==> text[index + indentation(
            text,
            index,
        )] != 0x20,
        (forall|i: int| index <= i < text.len() ==> text[i] == 0x20) ==> indentation(text, index)
            == 0,
    decreases index,
{
    lemma_skip_spaces(text, index);
    if index > 0 {
        lemma_location_at(text, index - 1);
    }
}

/// Where spaces run from `from` up to `to`, skipping from either gives the same.
proof fn lemma_skip_spaces_from(text: Seq<u8>, from: int, to: int)
    requires
        0 <= from <= to <= text.len(),
        forall|i: int| from <= i < to ==> text[i] == 0x20,
    ensures
        skip_spaces(text, from) == skip_spaces(text, to),
    decreases to - from,
{
    if from < to {
        lemma_skip_spaces_from(text, from + 1, to);
    }
}

/// Where spaces and tabs run from `from` up to `to`, skipping from either gives
/// the same.
proof fn lemma_skip_blanks_from(text: Seq<u8>, from: int, to: int)
    requires
        0 <= from <= to <= text.len(),
        forall|i: int| from <= i < to ==> text[i] == 0x20 || text[i] == 0x09,
    ensures
        skip_blanks(text, from) == skip_blanks(text, to),
    decreases to - from,
{
    if from < to {
        lemma_skip_blanks_from(text, from + 1, to);
    }
}

/// The keyword `anchor` is six bytes long.
pub proof fn lemma_anchor_keyword()
    ensures
        anchor_keyword().len() == 6,
{
    reveal_strlit("anchor");
    is_ascii_chars_encode_utf8("anchor"@);
}

/// An anchor line that `nearest_anchor` finds lies wholly before the limit, and
/// no anchor line lies between it and the limit.
pub proof fn lemma_nearest_anchor(text: Seq<u8>, limit: int)
    ensures
        -1 <= nearest_anchor(text, limit),
        nearest_anchor(text, limit) >= 0 ==> anchor_at(text, nearest_anchor(text, limit))
            && nearest_anchor(text, limit) + anchor_keyword().len() <= limit,
        forall|at: int|
            nearest_anchor(text, limit) < at && at + anchor_keyword().len() <= limit
                ==> !anchor_at(text, at),
    decreases limit,
{
    lemma_anchor_keyword();
    if limit >= 6 && !anchor_at(text, limit - 6) {
        lemma_nearest_anchor(text, limit - 1);
    }
}

/// What `first_anchor_line` picks: the first of the offsets at which a line
/// declares the anchor, and nothing where none does.
pub proof fn lemma_first_anchor_line(text: Seq<u8>, starts: Seq<usize>, name: Seq<u8>, from: int)
    requires
        0 <= from <= starts.len(),
    ensures
        match first_anchor_line(text, starts, name, from) {
            Some(found) => exists|k: int|
                from <= k < starts.len() && #[trigger] starts[k] == found && declares_anchor(
                    text,
                    found as int,
                    name,
                ) && forall|j: int|
                    from <= j < k ==> !declares_anchor(text, #[trigger] starts[j] as int, name),
            None => forall|j: int|
                from <= j < starts.len() ==> !declares_anchor(
                    text,
                    #[trigger] starts[j] as int,
                    name,
                ),
        },
    decreases starts.len() - from,
{
    if from < starts.len() {
        if declares_anchor(text, starts[from] as int, name) {
            assert(starts[from] == first_anchor_line(text, starts, name, from)->0);
        } else {
            lemma_first_anchor_line(text, starts, name, from + 1);
            match first_anchor_line(text, starts, name, from) {
                Some(found) => {
                    let k = choose|k: int|
                        from + 1 <= k < starts.len() && #[trigger] starts[k] == found
                            && declares_anchor(text, found as int, name) && forall|j: int|
                            from + 1 <= j < k ==> !declares_anchor(
                                text,
                                #[trigger] starts[j] as int,
                                name,
                            );
                    assert(starts[k] == found);
                },
                None => {},
            }
        }
    }
}

/// What `first_connection_line` picks: the first of the offsets at which a line
/// declares the connection under its anchor, and nothing where none does.
pub proof fn lemma_first_connection_line(
    text: Seq<u8>,
    starts: Seq<usize>,
    kind: ConnectionType,
    source: Seq<u8>,
    target: Seq<u8>,
    from: int,
)
    requires
        0 <= from <= starts.len(),
    ensures
        match first_connection_line(text, starts, kind, source, target, from) {
            Some(found) => exists|k: int|
                from <= k < starts.len() && #[trigger] starts[k] == found && connects(
                    text,
                    found as int,
                    kind,
                    source,
                    target,
                ) && forall|j: int|
                    from <= j < k ==> !connects(
                        text,
                        #[trigger] starts[j] as int,
                        kind,
                        source,
                        target,
                    ),
            None => forall|j: int|
                from <= j < starts.len() ==> !connects(
                    text,
                    #[trigger] starts[j] as int,
                    kind,
                    source,
                    target,
                ),
        },
    decreases starts.len() - from,
{
    if from < starts.len() {
        if connects(text, starts[from] as int, kind, source, target) {
            assert(starts[from] == first_connection_line(
                text,
                starts,
                kind,
                source,
                target,
                from,
            )->0);
        } else {
            lemma_first_connection_line(text, starts, kind, source, target, from + 1);
            match first_connection_line(text, starts, kind, source, target, from) {
                Some(found) => {
                    let k = choose|k: int|
                        from + 1 <= k < starts.len() && #[trigger] starts[k] == found && connects(
                            text,
                            found as int,
                            kind,
                            source,
                            target,
                        ) && forall|j: int|
                            from + 1 <= j < k ==> !connects(
                                text,
                                #[trigger] starts[j] as int,
                                kind,
                                source,
                                target,
                            );
                    assert(starts[k] == found);
                },
                None => {},
            }
        }
    }
}

/// A location that is reported for a node is that of a line which declares an
/// anchor of the node's name.
pub proof fn lemma_found_node_is_declared(name: Seq<char>, text: Seq<char>)
    ensures
        node_location(name, text) matches Some(location) ==> exists|at: int|
            #[trigger] declares_anchor(encode_utf8(text), at, encode_utf8(name)) && location
                == location_at(encode_utf8(text), at),
{
    match regex_match_starts(anchor_pattern(name), text) {
        Some(starts) => {
            lemma_first_anchor_line(encode_utf8(text), starts, encode_utf8(name), 0);
            match first_anchor_line(encode_utf8(text), starts, encode_utf8(name), 0) {
                Some(found) => {
                    assert(declares_anchor(encode_utf8(text), found as int, encode_utf8(name)));
                },
                None => {},
            }
        },
        None => {},
    }
}

/// A node whose name stands nowhere in the text is not found.
pub proof fn lemma_absent_node_is_not_found(name: Seq<char>, text: Seq<char>)
    requires
        !occurs(encode_utf8(text), encode_utf8(name)),
    ensures
        node_location(name, text) is None,
{
    lemma_found_node_is_declared(name, text);
    if node_location(name, text) is Some {
        let bytes = encode_utf8(text);
        let at = choose|at: int| #[trigger] declares_anchor(bytes, at, encode_utf8(name));
        let start = skip_spaces(bytes, at + anchor_keyword().len());
        assert(word_at(bytes, start, encode_utf8(name)));
    }
}

/// A location that is reported for a declaration from `from` to `to` is that of
/// a line which declares a connection to `to`, below an anchor line that names
/// `from`.
pub proof fn lemma_found_declaration_is_declared(
    kind: ConnectionType,
    from: Seq<char>,
    to: Seq<char>,
    text: Seq<char>,
)
    ensures
        declaration_location(kind, from, to, text) matches Some(location) ==> exists|at: int|
            #[trigger] connects(encode_utf8(text), at, kind, encode_utf8(from), encode_utf8(to))
                && location == location_at(encode_utf8(text), at),
{
    let bytes = encode_utf8(text);
    match regex_match_starts(connection_pattern(kind, to), text) {
        Some(starts) => {
            lemma_first_connection_line(bytes, starts, kind, encode_utf8(from), encode_utf8(to), 0);
            match first_connection_line(bytes, starts, kind, encode_utf8(from), encode_utf8(to), 0) {
                Some(found) => {
                    assert(connects(bytes, found as int, kind, encode_utf8(from), encode_utf8(to)));
                },
                None => {},
            }
        },
        None => {},
    }
}

/// Where a declaration is found, the names of both its ends stand in the text.
proof fn lemma_declaration_names_occur(
    kind: ConnectionType,
    from: Seq<char>,
    to: Seq<char>,
    text: Seq<char>,
)
    ensures
        declaration_location(kind, from, to, text) is Some ==> occurs(
            encode_utf8(text),
            encode_utf8(from),
        ) && occurs(encode_utf8(text), encode_utf8(to)),
{
    lemma_found_declaration_is_declared(kind, from, to, text);
    if declaration_location(kind, from, to, text) is Some {
        let bytes = encode_utf8(text);
        let source = encode_utf8(from);
        let target = encode_utf8(to);
        let at = choose|at: int| #[trigger] connects(bytes, at, kind, source, target);
        let above = nearest_anchor(bytes, at) + anchor_keyword().len();
        assert(word_at(bytes, skip_spaces(bytes, above), source));
        let keyword = skip_blanks(bytes, at);
        let conn = encode_utf8("conn"@);
        let pickup = encode_utf8("pickup"@);
        let quest = encode_utf8("quest"@);
        if declares(bytes, keyword, conn, target) {
            assert(word_at(bytes, skip_spaces(bytes, keyword + conn.len()), target));
        } else if declares(bytes, keyword, pickup, target) {
            assert(word_at(bytes, skip_spaces(bytes, keyword + pickup.len()), target));
        } else {
            assert(declares(bytes, keyword, quest, target));
            assert(word_at(bytes, skip_spaces(bytes, keyword + quest.len()), target));
        }
    }
}

/// A connection is not found in a text in which the name of one of its ends
/// stands nowhere.
pub proof fn lemma_absent_connection_is_not_found(
    connection: ConnectionView,
    text: Seq<char>,
    inverse: bool,
)
    requires
        !occurs(encode_utf8(text), encode_utf8(connection.start)) || !occurs(
            encode_utf8(text),
            encode_utf8(connection.end),
        ),
    ensures
        connection_location(connection, text, inverse) is None,
{
    lemma_declaration_names_occur(connection.kind, connection.start, connection.end, text);
    lemma_declaration_names_occur(connection.kind, connection.end, connection.start, text);
}

/// No line starts beyond the end of the text.
proof fn lemma_out_of_text(text: Seq<u8>, at: int, kind: ConnectionType, name: Seq<u8>)
    requires
        at > text.len(),
    ensures
        !declares_connection(text, at, kind, name),
{
}

/// Passes over the spaces that start at `from`.
fn after_spaces(text: &[u8], from: usize) -> (to: usize)
    requires
        from <= text@.len(),
    ensures
        to == skip_spaces(text@, from as int),
        from <= to <= text@.len(),
{
    let mut to = from;
    while to < text.len() && text[to] == 0x20
        invariant
            from <= to <= text@.len(),
            forall|i: int| from <= i < to ==> text@[i] == 0x20,
        decreases text@.len() - to,
    {
        to += 1;
    }
    proof {
        lemma_skip_spaces_from(text@, from as int, to as int);
    }
    to
}

/// Passes over the spaces and tabs that start at `from`.
fn after_blanks(text: &[u8], from: usize) -> (to: usize)
    requires
        from <= text@.len(),
    ensures
        to == skip_blanks(text@, from as int),
        from <= to <= text@.len(),
{
    let mut to = from;
    while to < text.len() && (text[to] == 0x20 || text[to] == 0x09)
        invariant
            from <= to <= text@.len(),
            forall|i: int| from <= i < to ==> text@[i] == 0x20 || text@[i] == 0x09,
        decreases text@.len() - to,
    {
        to += 1;
    }
    proof {
        lemma_skip_blanks_from(text@, from as int, to as int);
    }
    to
}

/// Whether a name may go on with this byte.
fn may_continue_name(byte: u8) -> (may: bool)
    ensures
        may == is_name_byte(byte),
{
    (0x30 <= byte && byte <= 0x39) || (0x41 <= byte && byte <= 0x5a) || (0x61 <= byte && byte
        <= 0x7a) || byte == 0x5f || byte == 0x2e
}

/// Whether a line of the text starts at `at`.
fn starts_line(text: &[u8], at: usize) -> (starts: bool)
    ensures
        starts == is_line_start(text@, at as int),
{
    at == 0 || (at <= text.len() && text[at - 1] == 0x0a)
}

/// Whether the text holds `word` at `at`.
fn has_word_at(text: &[u8], at: usize, word: &[u8]) -> (has: bool)
    ensures
        has == word_at(text@, at as int, word@),
{
    if at > text.len() || word.len() > text.len() - at {
        return false;
    }
    let mut i: usize = 0;
    while i < word.len()
        invariant
            i <= word@.len(),
            at + word@.len() <= text@.len() <= usize::MAX,
            forall|j: int| 0 <= j < i ==> text@[at + j] == word@[j],
        decreases word@.len() - i,
    {
        if text[at + i] != word[i] {
            assert(text@.subrange(at as int, at + word@.len())[i as int] != word@[i as int]);
            return false;
        }
        i += 1;
    }
    assert(text@.subrange(at as int, at + word@.len()) =~= word@);
    true
}

/// Whether, after any spaces from `at` on, the text holds `name` in full.
fn has_name_at(text: &[u8], at: usize, name: &[u8]) -> (has: bool)
    requires
        at <= text@.len(),
    ensures
        has == names_at(text@, at as int, name@),
{
    let start = after_spaces(text, at);
    if !has_word_at(text, start, name) {
        return false;
    }
    let length = text.len();
    let end = start + name.len();
    end == length || !may_continue_name(text[end])
}

/// Whether the text holds at `at` the keyword, a space, and the name in full.
fn has_declaration(text: &[u8], at: usize, keyword: &[u8], name: &[u8]) -> (has: bool)
    ensures
        has == declares(text@, at as int, keyword@, name@),
{
    if !has_word_at(text, at, keyword) {
        return false;
    }
    let length = text.len();
    let after = at + keyword.len();
    after < length && text[after] == 0x20 && has_name_at(text, after, name)
}

/// Whether the line that starts at `at` declares the anchor `name`.
fn is_anchor_line(text: &[u8], at: usize, name: &[u8]) -> (is: bool)
    ensures
        is == declares_anchor(text@, at as int, name@),
{
    starts_line(text, at) && has_declaration(text, at, "anchor".as_bytes(), name)
}

/// Whether the line that starts at `at` declares a connection to `name`.
fn is_connection_line(text: &[u8], at: usize, kind: ConnectionType, name: &[u8]) -> (is: bool)
    requires
        at <= text@.len(),
    ensures
        is == declares_connection(text@, at as int, kind, name@),
{
    if !starts_line(text, at) {
        return false;
    }
    let keyword = after_blanks(text, at);
    match kind {
        ConnectionType::Branch => has_declaration(text, keyword, "conn".as_bytes(), name),
        ConnectionType::Leaf => has_declaration(text, keyword, "pickup".as_bytes(), name)
            || has_declaration(text, keyword, "quest".as_bytes(), name),
    }
}

/// Searches backwards from `limit` for the last anchor line.
fn find_nearest_anchor(text: &[u8], limit: usize) -> (at: Option<usize>)
    ensures
        match at {
            Some(at) => nearest_anchor(text@, limit as int) == at,
            None => nearest_anchor(text@, limit as int) == -1,
        },
{
    let keyword = "anchor".as_bytes();
    let length = keyword.len();
    proof {
        lemma_anchor_keyword();
    }
    let mut end = limit;
    while end >= length
        invariant
            end <= limit,
            length == 6,
            keyword@ == anchor_keyword(),
            anchor_keyword().len() == 6,
            nearest_anchor(text@, limit as int) == nearest_anchor(text@, end as int),
        decreases end,
    {
        if starts_line(text, end - length) && has_word_at(text, end - length, keyword) {
            return Some(end - length);
        }
        end -= 1;
    }
    None
}

/// Whether the nearest anchor line before `found` names the anchor `name`.
fn is_declared_under(text: &[u8], found: usize, name: &[u8]) -> (is: bool)
    requires
        found <= text@.len(),
    ensures
        is == declared_under(text@, found as int, name@),
{
    match find_nearest_anchor(text, found) {
        Some(at) => {
            proof {
                lemma_nearest_anchor(text@, found as int);
                lemma_anchor_keyword();
            }
            has_name_at(text, at + 6, name)
        },
        None => false,
    }
}

impl SourceLocation {
    /// The location of the byte offset `index` in `source`: its line is the
    /// number of line feeds before it, its character the number of spaces
    /// between it and the first byte that is no space.
    pub fn from_index(source: &str, index: usize) -> (location: SourceLocation)
        requires
            index <= source.spec_bytes().len(),
        ensures
            location == location_at(source.spec_bytes(), index as int),
    {
        let text = source.as_bytes();
        let mut line: usize = 0;
        let mut i: usize = 0;
        while i < index
            invariant
                i <= index <= text@.len(),
                line == newlines_before(text@, i as int),
                line <= i,
            decreases index - i,
        {
            if text[i] == 0x0a {
                line += 1;
            }
            i += 1;
        }
        let stop = after_spaces(text, index);
        let char = if stop < text.len() {
            stop - index
        } else {
            0
        };
        SourceLocation { line, char }
    }
}

/// Picks, among the offsets that a search for the anchor `name` proposed, the
/// first at which a line of `areas` declares that anchor.
///
/// `starts` holds byte offsets into `areas`, in the order in which they were
/// found.
pub fn find_anchor_line(areas: &str, starts: &Vec<usize>, name: &str) -> (found: Option<usize>)
    ensures
        found == first_anchor_line(areas.spec_bytes(), starts@, name.spec_bytes(), 0),
        found matches Some(at) ==> at <= areas.spec_bytes().len(),
{
    let text = areas.as_bytes();
    let word = name.as_bytes();
    let mut k: usize = 0;
    while k < starts.len()
        invariant
            k <= starts@.len(),
            text@ == areas.spec_bytes(),
            word@ == name.spec_bytes(),
            first_anchor_line(text@, starts@, word@, 0) == first_anchor_line(
                text@,
                starts@,
                word@,
                k as int,
            ),
        decreases starts@.len() - k,
    {
        if is_anchor_line(text, starts[k], word) {
            return Some(starts[k]);
        }
        k += 1;
    }
    None
}

/// Picks, among the offsets that a search for a connection to `to` proposed,
/// the first at which a line of `areas` declares such a connection below a
/// declaration of the anchor `from`.
///
/// `starts` holds byte offsets into `areas`, in the order in which they were
/// found.
pub fn find_connection_line(
    areas: &str,
    starts: &Vec<usize>,
    kind: ConnectionType,
    from: &str,
    to: &str,
) -> (found: Option<usize>)
    ensures
        found == first_connection_line(
            areas.spec_bytes(),
            starts@,
            kind,
            from.spec_bytes(),
            to.spec_bytes(),
            0,
        ),
        found matches Some(at) ==> at <= areas.spec_bytes().len(),
{
    let text = areas.as_bytes();
    let source = from.as_bytes();
    let target = to.as_bytes();
    let length = text.len();
    let mut k: usize = 0;
    while k < starts.len()
        invariant
            k <= starts@.len(),
            length == text@.len(),
            text@ == areas.spec_bytes(),
            source@ == from.spec_bytes(),
            target@ == to.spec_bytes(),
            first_connection_line(text@, starts@, kind, source@, target@, 0)
                == first_connection_line(text@, starts@, kind, source@, target@, k as int),
        decreases starts@.len() - k,
    {
        let at = starts[k];
        if at <= length && is_connection_line(text, at, kind, target) && is_declared_under(
            text,
            at,
            source,
        ) {
            return Some(at);
        }
        proof {
            if at > length {
                lemma_out_of_text(text@, at as int, kind, target@);
            }
        }
        k += 1;
    }
    None
}

/// Looks for the declaration of a connection from `from` to `to`.
fn find_declaration(kind: ConnectionType, from: &str, to: &str, areas: &str) -> (location: Option<
    SourceLocation,
>)
    ensures
        location == declaration_location(kind, from@, to@, areas@),
{
    let pattern = connection_pattern_for(kind, to);
    match match_starts(pattern.as_str(), areas) {
        Some(starts) => match find_connection_line(areas, &starts, kind, from, to) {
            Some(found) => Some(SourceLocation::from_index(areas, found)),
            None => None,
        },
        None => None,
    }
}

impl<P> Node<P> {
    /// The location of this node's declaration in the areas text, or `None` if
    /// the text declares no anchor of this name.
    pub fn source_location(&self, areas: &str) -> (location: Option<SourceLocation>)
        ensures
            location == node_location(self.name@, areas@),
    {
        let name = self.name.as_str();
        let pattern = anchor_pattern_for(name);
        match match_starts(pattern.as_str(), areas) {
            Some(starts) => match find_anchor_line(areas, &starts, name) {
                Some(found) => Some(SourceLocation::from_index(areas, found)),
                None => None,
            },
            None => None,
        }
    }
}

impl Connection {
    /// The location of this connection's declaration in the areas text, or
    /// `None` if the text holds none.
    ///
    /// If this connection is not `unidirectional`, setting `inverse` to `false`
    /// gives the declaration from `start` to `end`, and setting it to `true`
    /// the one from `end` to `start`. If it is `unidirectional`, whichever of
    /// the two exists is given, the one that `inverse` names first.
    pub fn source_location(&self, areas: &str, inverse: bool) -> (location: Option<SourceLocation>)
        ensures
            location == connection_location(self@, areas@, inverse),
    {
        let start = self.start.as_str();
        let end = self.end.as_str();
        let first = if inverse {
            find_declaration(self.kind, end, start, areas)
        } else {
            find_declaration(self.kind, start, end, areas)
        };
        if first.is_some() || !self.unidirectional {
            first
        } else if inverse {
            find_declaration(self.kind, start, end, areas)
        } else {
            find_declaration(self.kind, end, start, areas)
        }
    }
}

} // verus!
