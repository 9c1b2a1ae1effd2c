//! References: the text of a `$ref`, the pointer in it, and the value that
//! the pointer leads to.
//!
//! A reference is a document identifier, then optionally `#` and a pointer.
//! An empty identifier means the document in which the reference is written.
//! A pointer is empty, or a sequence of segments each led in by `/`; in a
//! segment `~1` stands for `/` and `~0` for `~`.

use vstd::prelude::*;
use crate::node::Reference;
use crate::node::strings_view;
use crate::number::decimal;
use crate::number::is_digit;
use crate::rule::Target;
use crate::value::Json;
use crate::value::Value;
use crate::value::entry_names;
use crate::value::find_entry;
use crate::value::items_view;
use crate::value::members_view;
use crate::value::position;

verus! {

/// `h` is where the first `#` of `text` stands, or the length of `text`
/// where it has none.
pub open spec fn is_first_hash(text: Seq<char>, h: int) -> bool {
    &&& 0 <= h <= text.len()
    &&& h < text.len() ==> text[h] == '#'
    &&& forall|j: int| 0 <= j < h ==> text[j] != '#'
}

/// Where the first `#` of `text` stands, or the length of `text`.
pub open spec fn hash_position(text: Seq<char>) -> int {
    choose|h: int| is_first_hash(text, h)
}

/// The document identifier of a reference: what stands before the first `#`.
pub open spec fn base_of(text: Seq<char>) -> Seq<char> {
    text.subrange(0, hash_position(text))
}

/// The pointer of a reference: what stands after the first `#`, and nothing
/// where there is no `#`.
pub open spec fn fragment_of(text: Seq<char>) -> Seq<char> {
    if hash_position(text) < text.len() {
        text.subrange(hash_position(text) + 1, text.len() as int)
    } else {
        Seq::empty()
    }
}

/// The value of the hexadecimal digit `c`, where it is one.
pub open spec fn hex_value(c: char) -> Option<nat> {
    if '0' <= c <= '9' {
        Some((c as nat - '0' as nat) as nat)
    } else if 'a' <= c <= 'f' {
        Some((c as nat - 'a' as nat + 10) as nat)
    } else if 'A' <= c <= 'F' {
        Some((c as nat - 'A' as nat + 10) as nat)
    } else {
        None
    }
}

/// The text from `from` on with every `%` and the two hexadecimal digits
/// behind it replaced by the character of that code. `None` where a `%` is
/// not followed by two hexadecimal digits, or the code is `128` or more.
pub open spec fn decoded_from(text: Seq<char>, from: int) -> Option<Seq<char>>
    decreases text.len() - from,
{
    if from < 0 || from >= text.len() {
        Some(Seq::empty())
    } else if text[from] != '%' {
        match decoded_from(text, from + 1) {
            Some(rest) => Some(seq![text[from]] + rest),
            None => None,
        }
    } else if from + 2 < text.len() {
        match (hex_value(text[from + 1]), hex_value(text[from + 2])) {
            (Some(high), Some(low)) => if high < 8 {
                match decoded_from(text, from + 3) {
                    Some(rest) => Some(seq![((high * 16 + low) as u8) as char] + rest),
                    None => None,
                }
            } else {
                None
            },
            _ => None,
        }
    } else {
        None
    }
}

/// The pointer that the part of a reference behind its `#` writes.
pub open spec fn decoded(fragment: Seq<char>) -> Option<Seq<char>> {
    decoded_from(fragment, 0)
}

/// What has been read of a pointer: the segments that are complete, the
/// segment being read, and whether a `~` waits for its second character.
pub struct Reading {
    pub done: Seq<Seq<char>>,
    pub current: Seq<char>,
    pub tilde: bool,
}

/// Where reading stands after `text`, the part of a pointer behind its first
/// `/`. `None` where a `~` is followed by anything but `0` or `1`.
pub open spec fn reading(text: Seq<char>) -> Option<Reading>
    decreases text.len(),
{
    if text.len() == 0 {
        Some(Reading { done: Seq::empty(), current: Seq::empty(), tilde: false })
    } else {
        match reading(text.drop_last()) {
            None => None,
            Some(before) => {
                let c = text.last();
                if before.tilde {
                    if c == '0' {
                        Some(
                            Reading {
                                done: before.done,
                                current: before.current.push('~'),
                                tilde: false,
                            },
                        )
                    } else if c == '1' {
                        Some(
                            Reading {
                                done: before.done,
                                current: before.current.push('/'),
                                tilde: false,
                            },
                        )
                    } else {
                        None
                    }
                } else if c == '~' {
                    Some(Reading { done: before.done, current: before.current, tilde: true })
                } else if c == '/' {
                    Some(
                        Reading {
                            done: before.done.push(before.current),
                            current: Seq::empty(),
                            tilde: false,
                        },
                    )
                } else {
                    Some(
                        Reading {
                            done: before.done,
                            current: before.current.push(c),
                            tilde: false,
                        },
                    )
                }
            },
        }
    }
}

/// The segments of the pointer `fragment`. `None` where it is not empty and
/// does not begin with `/`, or where a `~` in it is not followed by `0` or
/// `1`.
pub open spec fn segments(fragment: Seq<char>) -> Option<Seq<Seq<char>>> {
    if fragment.len() == 0 {
        Some(Seq::empty())
    } else if fragment[0] != '/' {
        None
    } else {
        match reading(fragment.subrange(1, fragment.len() as int)) {
            Some(state) => if state.tilde {
                None
            } else {
                Some(state.done.push(state.current))
            },
            None => None,
        }
    }
}

/// The array index that `segment` writes: decimal digits without a leading
/// zero, or `0` itself.
pub open spec fn array_index(segment: Seq<char>) -> Option<nat> {
    if segment.len() > 0 && (forall|i: int| 0 <= i < segment.len() ==> is_digit(#[trigger] segment[i]))
        && (segment.len() == 1 || segment[0] != '0') {
        Some(decimal(segment))
    } else {
        None
    }
}

/// The value one segment further into `value`: the member of that name, or
/// the element at that index.
pub open spec fn step_into(value: Json, segment: Seq<char>) -> Option<Json> {
    match value {
        Json::Object(_) => if value.has(segment) {
            Some(value.get(segment))
        } else {
            None
        },
        Json::Array(items) => match array_index(segment) {
            Some(n) => if n < items.len() {
                Some(items[n as int])
            } else {
                None
            },
            None => None,
        },
        _ => None,
    }
}

/// The value that the first `k` of `path` lead to from `document`.
pub open spec fn navigate(document: Json, path: Seq<Seq<char>>, k: nat) -> Option<Json>
    decreases k,
{
    if k == 0 || k > path.len() {
        Some(document)
    } else {
        match navigate(document, path, (k - 1) as nat) {
            Some(value) => step_into(value, path[k - 1]),
            None => None,
        }
    }
}

/// The documents that a reference can lead into, as mathematical objects:
/// their identifiers and their contents.
pub open spec fn documents_view(documents: Seq<(String, Value)>) -> Seq<(Seq<char>, Json)> {
    members_view(documents)
}

/// Document `d`: the root for `0`, entry `d - 1` of the table otherwise.
pub open spec fn document_at(root: Json, table: Seq<(Seq<char>, Json)>, d: nat) -> Json {
    if d == 0 {
        root
    } else {
        table[d - 1].1
    }
}

/// The document that the reference `target` leads into: the one it is
/// written in where it names none, else the last one of the table under the
/// identifier it names.
pub open spec fn document_of(table: Seq<(Seq<char>, Json)>, target: Target) -> Option<nat> {
    if base_of(target.text).len() == 0 {
        if target.document <= table.len() {
            Some(target.document)
        } else {
            None
        }
    } else {
        let k = position(crate::value::member_names(table), base_of(target.text));
        if 0 <= k < table.len() {
            Some((k + 1) as nat)
        } else {
            None
        }
    }
}

/// What the reference `target` leads to: a document and the schema in it.
pub open spec fn resolve(root: Json, table: Seq<(Seq<char>, Json)>, target: Target) -> Option<
    (nat, Json),
> {
    match document_of(table, target) {
        Some(d) => match decoded(fragment_of(target.text)) {
            Some(pointer) => match segments(pointer) {
                Some(path) => match navigate(document_at(root, table, d), path, path.len()) {
                    Some(value) => Some((d, value)),
                    None => None,
                },
                None => None,
            },
            None => None,
        },
        None => None,
    }
}

/// There is one place for the first `#`.
pub proof fn lemma_first_hash(text: Seq<char>, h: int)
    requires
        is_first_hash(text, h),
    ensures
        hash_position(text) == h,
{
    let k = hash_position(text);
    assert(is_first_hash(text, k));
    if k < h {
        assert(text[k] != '#');
    }
    if h < k {
        assert(text[h] != '#');
    }
}

/// Appends `c` to `s` with `String::push`, which documents that it appends
/// the character to the end of the string.
#[verifier::external_body]
fn push_char(s: &mut String, c: char)
    ensures
        final(s)@ == old(s)@.push(c),
{
    s.push(c)
}

/// The two parts of a reference: the document identifier and the pointer.
pub fn split_reference(text: &str) -> (r: (String, String))
    ensures
        r.0@ == base_of(text@),
        r.1@ == fragment_of(text@),
{
    let n: usize = text.unicode_len();
    let mut base = String::new();
    let mut h: usize = 0;
    while h < n && text.get_char(h) != '#'
        invariant
            h <= n == text@.len(),
            forall|j: int| 0 <= j < h ==> text@[j] != '#',
            base@ == text@.subrange(0, h as int),
        decreases n - h,
    {
        push_char(&mut base, text.get_char(h));
        assert(text@.subrange(0, h + 1) =~= text@.subrange(0, h as int).push(text@[h as int]));
        h = h + 1;
    }
    proof {
        lemma_first_hash(text@, h as int);
    }
    let mut fragment = String::new();
    if h < n {
        let mut i: usize = h + 1;
        assert(text@.subrange(h + 1, i as int) =~= Seq::<char>::empty());
        while i < n
            invariant
                h < i <= n == text@.len(),
                fragment@ == text@.subrange(h + 1, i as int),
            decreases n - i,
        {
            push_char(&mut fragment, text.get_char(i));
            assert(text@.subrange(h + 1, i + 1) =~= text@.subrange(h + 1, i as int).push(
                text@[i as int],
            ));
            i = i + 1;
        }
    }
    (base, fragment)
}

/// The value of the hexadecimal digit `c`.
pub fn hex_digit(c: char) -> (r: Option<u8>)
    ensures
        match r {
            Some(v) => hex_value(c) == Some(v as nat) && v < 16,
            None => hex_value(c) is None,
        },
{
    if c >= '0' && c <= '9' {
        Some((c as u32 - '0' as u32) as u8)
    } else if c >= 'a' && c <= 'f' {
        Some((c as u32 - 'a' as u32 + 10) as u8)
    } else if c >= 'A' && c <= 'F' {
        Some((c as u32 - 'A' as u32 + 10) as u8)
    } else {
        None
    }
}

/// The pointer that the part of a reference behind its `#` writes.
pub fn decode(fragment: &str) -> (r: Option<String>)
    ensures
        match r {
            Some(pointer) => decoded(fragment@) == Some(pointer@),
            None => decoded(fragment@) is None,
        },
{
    let n: usize = fragment.unicode_len();
    let mut out = String::new();
    let mut i: usize = 0;
    assert(out@ + decoded_from(fragment@, 0)->0 =~= decoded_from(fragment@, 0)->0);
    while i < n
        invariant
            i <= n == fragment@.len(),
            decoded(fragment@) == match decoded_from(fragment@, i as int) {
                Some(rest) => Some(out@ + rest),
                None => None,
            },
        decreases n - i,
    {
        let c: char = fragment.get_char(i);
        let ghost before = out@;
        if c != '%' {
            push_char(&mut out, c);
            proof {
                if decoded_from(fragment@, i + 1) is Some {
                    let rest = decoded_from(fragment@, i + 1)->0;
                    assert(before + (seq![c] + rest) =~= before.push(c) + rest);
                }
            }
            i = i + 1;
        } else {
            if n - i < 3 {
                return None;
            }
            let high = hex_digit(fragment.get_char(i + 1));
            let low = hex_digit(fragment.get_char(i + 2));
            match (high, low) {
                (Some(h), Some(l)) => {
                    if h >= 8 {
                        return None;
                    }
                    let code: u8 = h * 16 + l;
                    push_char(&mut out, code as char);
                    proof {
                        if decoded_from(fragment@, i + 3) is Some {
                            let rest = decoded_from(fragment@, i + 3)->0;
                            assert(before + (seq![code as char] + rest) =~= before.push(
                                code as char,
                            ) + rest);
                        }
                    }
                    i = i + 3;
                },
                _ => {
                    return None;
                },
            }
        }
    }
    proof {
        assert(out@ + Seq::<char>::empty() =~= out@);
    }
    Some(out)
}

/// The segments of the pointer `fragment`.
pub fn parse_pointer(fragment: &str) -> (r: Option<Vec<String>>)
    ensures
        match r {
            Some(path) => segments(fragment@) == Some(strings_view(path@)),
            None => segments(fragment@) is None,
        },
{
    let n: usize = fragment.unicode_len();
    let mut done: Vec<String> = Vec::new();
    if n == 0 {
        assert(strings_view(done@) =~= Seq::empty());
        return Some(done);
    }
    if fragment.get_char(0) != '/' {
        return None;
    }
    let ghost body = fragment@.subrange(1, n as int);
    let mut current = String::new();
    let mut tilde: bool = false;
    let mut i: usize = 1;
    assert(fragment@.subrange(1, 1) =~= Seq::<char>::empty());
    assert(strings_view(done@) =~= Seq::empty());
    while i < n
        invariant
            1 <= i <= n == fragment@.len(),
            body == fragment@.subrange(1, n as int),
            reading(fragment@.subrange(1, i as int)) == Some(
                Reading { done: strings_view(done@), current: current@, tilde },
            ),
        decreases n - i,
    {
        let c: char = fragment.get_char(i);
        let ghost before = strings_view(done@);
        proof {
            let next = fragment@.subrange(1, i + 1);
            assert(next.drop_last() =~= fragment@.subrange(1, i as int));
            assert(next.last() == c);
        }
        if tilde {
            if c == '0' {
                push_char(&mut current, '~');
                tilde = false;
            } else if c == '1' {
                push_char(&mut current, '/');
                tilde = false;
            } else {
                proof {
                    assert(fragment@.subrange(1, i + 1) =~= body.subrange(0, i as int));
                    lemma_reading_fails(fragment@.subrange(1, i + 1), body);
                }
                return None;
            }
        } else if c == '~' {
            tilde = true;
        } else if c == '/' {
            done.push(current);
            assert(strings_view(done@) =~= before.push(current@));
            current = String::new();
        } else {
            push_char(&mut current, c);
        }
        i = i + 1;
    }
    assert(fragment@.subrange(1, i as int) == body);
    if tilde {
        None
    } else {
        let ghost before = strings_view(done@);
        done.push(current);
        assert(strings_view(done@) =~= before.push(current@));
        Some(done)
    }
}

/// Once reading has failed on a part of a pointer, it fails on the whole.
pub proof fn lemma_reading_fails(part: Seq<char>, whole: Seq<char>)
    requires
        part.len() <= whole.len(),
        part == whole.subrange(0, part.len() as int),
        reading(part) is None,
    ensures
        reading(whole) is None,
    decreases whole.len(),
{
    if part.len() < whole.len() {
        assert(part =~= whole.drop_last().subrange(0, part.len() as int));
        lemma_reading_fails(part, whole.drop_last());
    } else {
        assert(part =~= whole);
    }
}

/// The array index that `segment` writes, where it fits in a machine
/// integer.
pub fn parse_index(segment: &str) -> (r: Option<usize>)
    ensures
        match r {
            Some(n) => array_index(segment@) == Some(n as nat),
            None => array_index(segment@) is None || array_index(segment@)->0 > usize::MAX,
        },
{
    let n: usize = segment.unicode_len();
    if n == 0 {
        return None;
    }
    if n > 1 && segment.get_char(0) == '0' {
        return None;
    }
    let mut value: usize = 0;
    let mut i: usize = 0;
    let mut fits: bool = true;
    assert(segment@.subrange(0, 0) =~= Seq::<char>::empty());
    while i < n
        invariant
            i <= n == segment@.len(),
            forall|j: int| 0 <= j < i ==> is_digit(#[trigger] segment@[j]),
            fits ==> value == decimal(segment@.subrange(0, i as int)),
            !fits ==> decimal(segment@.subrange(0, i as int)) > usize::MAX,
        decreases n - i,
    {
        let c: char = segment.get_char(i);
        if c < '0' || c > '9' {
            assert(!is_digit(segment@[i as int]));
            return None;
        }
        let digit: usize = (c as u32 - '0' as u32) as usize;
        proof {
            let next = segment@.subrange(0, i + 1);
            assert(next.drop_last() =~= segment@.subrange(0, i as int));
            assert(next.last() == c);
        }
        if fits && value <= (usize::MAX - digit) / 10 {
            value = value * 10 + digit;
        } else {
            fits = false;
        }
        i = i + 1;
    }
    assert(segment@.subrange(0, i as int) =~= segment@);
    if fits {
        Some(value)
    } else {
        None
    }
}

/// The value one segment further into `value`.
pub fn enter<'a>(value: &'a Value, segment: &String) -> (r: Option<&'a Value>)
    ensures
        match r {
            Some(inner) => step_into(value@, segment@) == Some(inner@),
            None => step_into(value@, segment@) is None,
        },
{
    match value {
        Value::Object(members) => {
            assert(value@ == Json::Object(members_view(members@)));
            value.get(segment.as_str())
        },
        Value::Array(items) => {
            assert(value@ == Json::Array(items_view(items@)));
            match parse_index(segment.as_str()) {
                Some(n) => if n < items.len() {
                    assert(items_view(items@)[n as int] == items@[n as int]@);
                    Some(&items[n])
                } else {
                    None
                },
                None => {
                    let length: usize = items.len();
                    assert(items_view(items@).len() == length);
                    None
                },
            }
        },
        _ => {
            assert(!(value@ is Object) && !(value@ is Array));
            None
        },
    }
}

/// The value that `path` leads to from `document`.
pub fn follow<'a>(document: &'a Value, path: &Vec<String>) -> (r: Option<&'a Value>)
    ensures
        match r {
            Some(value) => navigate(document@, strings_view(path@), path@.len()) == Some(value@),
            None => navigate(document@, strings_view(path@), path@.len()) is None,
        },
{
    let ghost steps = strings_view(path@);
    let mut current: &Value = document;
    let mut i: usize = 0;
    while i < path.len()
        invariant
            i <= path.len(),
            steps == strings_view(path@),
            navigate(document@, steps, i as nat) == Some(current@),
        decreases path.len() - i,
    {
        match enter(current, &path[i]) {
            Some(inner) => {
                current = inner;
            },
            None => {
                proof {
                    lemma_navigate_fails(document@, steps, (i + 1) as nat, steps.len());
                }
                return None;
            },
        }
        i = i + 1;
    }
    Some(current)
}

/// Once a path has led nowhere, it leads nowhere however far it is followed.
pub proof fn lemma_navigate_fails(document: Json, path: Seq<Seq<char>>, k: nat, n: nat)
    requires
        k <= n <= path.len(),
        navigate(document, path, k) is None,
    ensures
        navigate(document, path, n) is None,
    decreases n,
{
    if k < n {
        lemma_navigate_fails(document, path, k, (n - 1) as nat);
    }
}

/// What `reference` leads to: a document and the schema in it.
pub fn resolve_reference<'a>(
    root: &'a Value,
    documents: &'a Vec<(String, Value)>,
    reference: &Reference,
) -> (r: Option<(usize, &'a Value)>)
    ensures
        match r {
            Some((d, value)) => resolve(root@, documents_view(documents@), reference@) == Some(
                (d as nat, value@),
            ) && d <= documents.len(),
            None => resolve(root@, documents_view(documents@), reference@) is None,
        },
{
    let parts = split_reference(reference.text.as_str());
    let ghost table = documents_view(documents@);
    proof {
        assert(entry_names(documents@) =~= crate::value::member_names(table));
    }
    let found: Option<usize> = if parts.0.as_str().unicode_len() == 0 {
        if reference.document <= documents.len() {
            Some(reference.document)
        } else {
            None
        }
    } else {
        match find_entry(documents, &parts.0) {
            Some(k) => Some(k + 1),
            None => None,
        }
    };
    assert(match found {
        Some(d) => document_of(table, reference@) == Some(d as nat) && d <= documents.len(),
        None => document_of(table, reference@) is None,
    });
    match found {
        None => None,
        Some(d) => match decode(parts.1.as_str()) {
            None => None,
            Some(pointer) => match parse_pointer(pointer.as_str()) {
                None => None,
                Some(path) => {
                    let document: &Value = if d == 0 {
                        root
                    } else {
                        &documents[d - 1].1
                    };
                    assert(document@ == document_at(root@, table, d as nat));
                    match follow(document, &path) {
                        Some(value) => Some((d, value)),
                        None => None,
                    }
                },
            },
        },
    }
}

} // verus!
