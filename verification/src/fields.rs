//! Field-level normalizations: Message-ID brackets, header value text,
//! whitespace collapsing, safe attachment file names, and the header lookups
//! that read a part's fields.
use vstd::prelude::*;
use crate::dto::{opt_string, AddressDto};
use crate::model::{addr_v, AddrV, HeaderModel, HeaderV, ValueModel, ValueV};
use crate::render::{render_addresses, render_addrs};
use crate::text::{
    char_is_ws, chars_of, is_ws, lit, push_all, push_str, string_of, sub_chars, trim, trim_chars,
};

verus! {

/// Index of the last header among the first `n` of `hs` whose name id is `id`.
pub open spec fn last_header_in(hs: Seq<HeaderV>, id: u8, n: int) -> Option<int>
    decreases n,
{
    if n <= 0 || n > hs.len() {
        None
    } else if hs[n - 1].id == id {
        Some(n - 1)
    } else {
        last_header_in(hs, id, n - 1)
    }
}

/// The value of the last header named by `id`, as `mail_parser` looks a field up.
pub open spec fn value_of(hs: Seq<HeaderV>, id: u8) -> Option<ValueV> {
    match last_header_in(hs, id, hs.len() as int) {
        Some(i) => Some(hs[i].value),
        None => None,
    }
}

/// `HeaderValue::as_text`: a text, or the last item of a text list.
pub open spec fn as_text(v: Option<ValueV>) -> Option<Seq<char>> {
    match v {
        Some(ValueV::Text(s)) => Some(s),
        Some(ValueV::TextList(l)) => if l.len() > 0 {
            Some(l.last())
        } else {
            None
        },
        _ => None,
    }
}

/// Concatenation of the groups of mailboxes.
pub open spec fn flatten_groups(gs: Seq<Seq<AddrV>>) -> Seq<AddrV>
    decreases gs.len(),
{
    if gs.len() == 0 {
        Seq::empty()
    } else {
        flatten_groups(gs.drop_last()) + gs.last()
    }
}

/// Mailboxes of an address value: the list, or the groups' members in order.
pub open spec fn address_list_spec(v: Option<ValueV>) -> Seq<AddrV> {
    match v {
        Some(ValueV::AddressList(l)) => l,
        Some(ValueV::AddressGroups(gs)) => flatten_groups(gs),
        _ => Seq::empty(),
    }
}

/// Index of the last header with name id `id`.
pub fn find_last_header(hs: &Vec<HeaderModel>, id: u8) -> (r: Option<usize>)
    ensures
        match r {
            Some(i) => i < hs@.len() && last_header_in(
                hs@.map_values(|x: HeaderModel| x@),
                id,
                hs@.len() as int,
            ) == Some(i as int),
            None => last_header_in(hs@.map_values(|x: HeaderModel| x@), id, hs@.len() as int) is None,
        },
{
    let ghost v = hs@.map_values(|x: HeaderModel| x@);
    let mut n = hs.len();
    while n > 0
        invariant
            n <= hs@.len(),
            v == hs@.map_values(|x: HeaderModel| x@),
            last_header_in(v, id, n as int) == last_header_in(v, id, hs@.len() as int),
        decreases n,
    {
        if hs[n - 1].id == id {
            return Some(n - 1);
        }
        n -= 1;
    }
    None
}

/// The value of the last header with name id `id`.
pub fn value_of_exec(hs: &Vec<HeaderModel>, id: u8) -> (r: Option<&ValueModel>)
    ensures
        match r {
            Some(x) => value_of(hs@.map_values(|h: HeaderModel| h@), id) == Some(x@),
            None => value_of(hs@.map_values(|h: HeaderModel| h@), id) is None,
        },
{
    match find_last_header(hs, id) {
        Some(i) => Some(&hs[i].value),
        None => None,
    }
}

/// `HeaderValue::as_text` on an optional value.
pub fn as_text_exec(v: Option<&ValueModel>) -> (r: Option<String>)
    ensures
        opt_string(r) == as_text(match v {
            Some(x) => Some(x@),
            None => None,
        }),
{
    match v {
        Some(ValueModel::Text(s)) => Some(s.clone()),
        Some(ValueModel::TextList(l)) => {
            if l.len() > 0 {
                Some(l[l.len() - 1].clone())
            } else {
                None
            }
        },
        _ => None,
    }
}

/// Copy of a mailbox record.
pub fn copy_address(a: &AddressDto) -> (r: AddressDto)
    ensures
        addr_v(r) == addr_v(*a),
{
    AddressDto { name: a.name.clone(), email: a.email.clone() }
}

/// The mailboxes of an optional address value, groups flattened in order.
pub fn address_list(v: Option<&ValueModel>) -> (r: Vec<AddressDto>)
    ensures
        crate::model::addrs_v(r@) == address_list_spec(match v {
            Some(x) => Some(x@),
            None => None,
        }),
{
    let mut out: Vec<AddressDto> = Vec::new();
    match v {
        Some(ValueModel::AddressList(l)) => {
            let mut i: usize = 0;
            while i < l.len()
                invariant
                    i <= l@.len(),
                    out@.len() == i,
                    forall|j: int| 0 <= j < i ==> addr_v(#[trigger] out@[j]) == addr_v(l@[j]),
                decreases l.len() - i,
            {
                out.push(copy_address(&l[i]));
                i += 1;
            }
            assert(crate::model::addrs_v(out@) =~= crate::model::addrs_v(l@));
        },
        Some(ValueModel::AddressGroups(gs)) => {
            let ghost gv = gs@.map_values(|g: Vec<AddressDto>| crate::model::addrs_v(g@));
            let mut g: usize = 0;
            while g < gs.len()
                invariant
                    g <= gs@.len(),
                    gv == gs@.map_values(|g: Vec<AddressDto>| crate::model::addrs_v(g@)),
                    crate::model::addrs_v(out@) == flatten_groups(gv.take(g as int)),
                decreases gs.len() - g,
            {
                let grp = &gs[g];
                let ghost before = out@;
                let mut k: usize = 0;
                while k < grp.len()
                    invariant
                        k <= grp@.len(),
                        out@.len() == before.len() + k,
                        forall|j: int| 0 <= j < before.len() ==> #[trigger] out@[j] == before[j],
                        forall|j: int|
                            before.len() <= j < out@.len() ==> addr_v(#[trigger] out@[j]) == addr_v(
                                grp@[j - before.len()],
                            ),
                    decreases grp.len() - k,
                {
                    out.push(copy_address(&grp[k]));
                    k += 1;
                }
                assert(gv.take(g + 1).drop_last() =~= gv.take(g as int));
                assert(gv.take(g + 1).last() == crate::model::addrs_v(grp@));
                assert(crate::model::addrs_v(out@) =~= crate::model::addrs_v(before)
                    + crate::model::addrs_v(grp@));
                g += 1;
            }
            assert(gv.take(gs@.len() as int) =~= gv);
        },
        _ => {},
    }
    out
}

/// `Message-ID` normalization: trim, drop one pair of surrounding angle
/// brackets, trim again; nothing when empty.
pub open spec fn normalize_message_id_spec(value: Seq<char>) -> Option<Seq<char>> {
    let t = trim(value);
    let inner = if t.len() > 0 && t[0] == '<' && t.last() == '>' {
        t.subrange(1, t.len() - 1)
    } else {
        t
    };
    let r = trim(inner);
    if r.len() == 0 {
        None
    } else {
        Some(r)
    }
}

/// Normalizes a Message-ID: no surrounding whitespace or angle brackets.
pub fn normalize_message_id(value: &str) -> (r: Option<String>)
    ensures
        opt_string(r) == normalize_message_id_spec(value@),
{
    let cs = chars_of(value);
    let t = trim_chars(cs.as_slice());
    let inner = if t.len() > 0 && t[0] == '<' && t[t.len() - 1] == '>' {
        sub_chars(t.as_slice(), 1, t.len() - 1)
    } else {
        t
    };
    let r = trim_chars(inner.as_slice());
    if r.len() == 0 {
        None
    } else {
        Some(string_of(r.as_slice()))
    }
}

/// Normalized ids of a header value: one for a text, each valid one for a list.
pub open spec fn ids_from_value(v: Option<ValueV>) -> Seq<Seq<char>> {
    match v {
        Some(ValueV::Text(t)) => match normalize_message_id_spec(t) {
            Some(x) => seq![x],
            None => Seq::empty(),
        },
        Some(ValueV::TextList(l)) => ids_from_list(l),
        _ => Seq::empty(),
    }
}

/// Normalized ids of the items of a list, skipping the empty ones.
pub open spec fn ids_from_list(l: Seq<Seq<char>>) -> Seq<Seq<char>>
    decreases l.len(),
{
    if l.len() == 0 {
        Seq::empty()
    } else {
        ids_from_list(l.drop_last()) + match normalize_message_id_spec(l.last()) {
            Some(x) => seq![x],
            None => Seq::empty(),
        }
    }
}

/// The normalized Message-IDs of a header value.
pub fn ids_from_header(v: Option<&ValueModel>) -> (r: Vec<String>)
    ensures
        r@.map_values(|s: String| s@) == ids_from_value(match v {
            Some(x) => Some(x@),
            None => None,
        }),
{
    let mut out: Vec<String> = Vec::new();
    match v {
        Some(ValueModel::Text(t)) => {
            if let Some(x) = normalize_message_id(t.as_str()) {
                out.push(x);
            }
            assert(out@.map_values(|s: String| s@) =~= ids_from_value(Some(v.unwrap()@)));
        },
        Some(ValueModel::TextList(l)) => {
            let ghost lv = l@.map_values(|s: String| s@);
            let mut i: usize = 0;
            while i < l.len()
                invariant
                    i <= l@.len(),
                    lv == l@.map_values(|s: String| s@),
                    out@.map_values(|s: String| s@) == ids_from_list(lv.take(i as int)),
                decreases l.len() - i,
            {
                assert(lv.take(i + 1).drop_last() =~= lv.take(i as int));
                let ghost before = out@;
                if let Some(x) = normalize_message_id(l[i].as_str()) {
                    out.push(x);
                    assert(out@.map_values(|s: String| s@) =~= before.map_values(|s: String| s@)
                        + seq![x@]);
                } else {
                    assert(out@.map_values(|s: String| s@) =~= before.map_values(|s: String| s@)
                        + Seq::<Seq<char>>::empty());
                }
                i += 1;
            }
            assert(lv.take(l@.len() as int) =~= lv);
        },
        _ => {
            assert(out@.map_values(|s: String| s@) =~= Seq::<Seq<char>>::empty());
        },
    }
    out
}

/// `split_whitespace().join(" ")`, read left to right: `acc` is the output so
/// far and `pending` whether a separator is owed before the next word.
pub open spec fn collapse_ws_from(s: Seq<char>, i: int, acc: Seq<char>, pending: bool) -> Seq<char>
    decreases s.len() - i,
{
    if i < 0 || i >= s.len() {
        acc
    } else if is_ws(s[i]) {
        collapse_ws_from(s, i + 1, acc, acc.len() > 0)
    } else {
        collapse_ws_from(
            s,
            i + 1,
            if pending {
                acc.push(' ').push(s[i])
            } else {
                acc.push(s[i])
            },
            false,
        )
    }
}

/// The words of `s` joined by single spaces.
pub open spec fn collapse_ws(s: Seq<char>) -> Seq<char> {
    collapse_ws_from(s, 0, Seq::empty(), false)
}

/// The words of `s` joined by single spaces.
pub fn collapse_whitespace(s: &[char]) -> (r: Vec<char>)
    ensures
        r@ == collapse_ws(s@),
{
    let mut acc: Vec<char> = Vec::new();
    let mut pending = false;
    let mut i: usize = 0;
    while i < s.len()
        invariant
            i <= s@.len(),
            collapse_ws_from(s@, i as int, acc@, pending) == collapse_ws(s@),
        decreases s.len() - i,
    {
        if char_is_ws(s[i]) {
            pending = acc.len() > 0;
        } else {
            if pending {
                acc.push(' ');
            }
            acc.push(s[i]);
            pending = false;
        }
        i += 1;
    }
    acc
}

/// The raw text of a header value with a leading `{name}:` removed when
/// present and its whitespace collapsed.
pub open spec fn raw_header_value_spec(raw: Seq<char>, name: Seq<char>) -> Seq<char> {
    let rest = if raw.len() >= name.len() + 1 && raw.take(name.len() as int) == name && raw[name.len() as int]
        == ':' {
        raw.skip(name.len() as int + 1)
    } else {
        raw
    };
    collapse_ws(rest)
}

/// Whether `a` begins with exactly the characters of `b`.
pub fn prefix_eq(a: &[char], b: &[char]) -> (r: bool)
    ensures
        r == (b@.len() <= a@.len() && a@.take(b@.len() as int) == b@),
{
    if b.len() > a.len() {
        return false;
    }
    let mut i: usize = 0;
    while i < b.len()
        invariant
            b@.len() <= a@.len(),
            i <= b@.len(),
            forall|k: int| 0 <= k < i ==> a@[k] == b@[k],
        decreases b.len() - i,
    {
        if a[i] != b[i] {
            assert(a@.take(b@.len() as int)[i as int] != b@[i as int]);
            return false;
        }
        i += 1;
    }
    assert(a@.take(b@.len() as int) =~= b@);
    true
}

/// A raw header value without its name prefix, whitespace collapsed.
pub fn raw_header_value(raw: &str, name: &str) -> (r: String)
    ensures
        r@ == raw_header_value_spec(raw@, name@),
{
    let cs = chars_of(raw);
    let ns = chars_of(name);
    let matches = cs.len() > ns.len() && cs[ns.len()] == ':' && prefix_eq(cs.as_slice(), ns.as_slice());
    let rest = if matches {
        sub_chars(cs.as_slice(), ns.len() + 1, cs.len())
    } else {
        cs
    };
    string_of(collapse_whitespace(rest.as_slice()).as_slice())
}

} // verus!

verus! {

/// `type/subtype`, or the type alone.
pub open spec fn content_type_name_spec(t: Seq<char>, st: Option<Seq<char>>) -> Seq<char> {
    match st {
        Some(s) => t + "/"@ + s,
        None => t,
    }
}

/// `type/subtype`, or the type alone.
pub fn content_type_name(t: &String, st: &Option<String>) -> (r: String)
    ensures
        r@ == content_type_name_spec(t@, opt_string(*st)),
{
    match st {
        Some(s) => {
            let mut out: Vec<char> = Vec::new();
            push_str(&mut out, t.as_str());
            push_str(&mut out, "/");
            push_str(&mut out, s.as_str());
            string_of(out.as_slice())
        },
        None => t.clone(),
    }
}

/// Items joined by single spaces.
pub open spec fn join_spaces(l: Seq<Seq<char>>) -> Seq<char>
    decreases l.len(),
{
    if l.len() == 0 {
        Seq::empty()
    } else if l.len() == 1 {
        l[0]
    } else {
        join_spaces(l.drop_last()) + " "@ + l.last()
    }
}

/// Display text of a header value.
pub open spec fn header_value_text(v: ValueV) -> Seq<char> {
    match v {
        ValueV::AddressList(l) => render_addrs(l),
        ValueV::AddressGroups(gs) => render_addrs(flatten_groups(gs)),
        ValueV::Text(t) => t,
        ValueV::TextList(l) => join_spaces(l),
        ValueV::DateTime(_, s) => s,
        ValueV::ContentType(t, st, _) => content_type_name_spec(t, st),
        ValueV::Received(s) => s,
        ValueV::Empty => Seq::empty(),
    }
}

/// Display text of a header value: addresses rendered, lists joined by
/// spaces, dates in RFC 3339, content types as `type/subtype`.
pub fn header_value_to_string(v: &ValueModel) -> (r: String)
    ensures
        r@ == header_value_text(v@),
{
    match v {
        ValueModel::AddressList(l) => {
            let list = address_list(Some(v));
            assert(crate::model::addrs_v(list@) == crate::model::addrs_v(l@));
            render_addresses(&list)
        },
        ValueModel::AddressGroups(gs) => {
            let list = address_list(Some(v));
            assert(crate::model::addrs_v(list@) == flatten_groups(
                gs@.map_values(|g: Vec<AddressDto>| crate::model::addrs_v(g@)),
            ));
            render_addresses(&list)
        },
        ValueModel::Text(t) => t.clone(),
        ValueModel::TextList(l) => {
            let ghost lv = crate::model::strings_v(l@);
            let mut out: Vec<char> = Vec::new();
            let mut i: usize = 0;
            while i < l.len()
                invariant
                    i <= l@.len(),
                    lv == crate::model::strings_v(l@),
                    out@ == join_spaces(lv.take(i as int)),
                decreases l.len() - i,
            {
                assert(lv.take(i + 1).drop_last() =~= lv.take(i as int));
                if i > 0 {
                    push_str(&mut out, " ");
                } else {
                    assert(lv.take(1) =~= seq![lv[0]]);
                }
                push_str(&mut out, l[i].as_str());
                i += 1;
            }
            assert(lv.take(l@.len() as int) =~= lv);
            string_of(out.as_slice())
        },
        ValueModel::DateTime(_, s) => s.clone(),
        ValueModel::ContentType(t, st, _) => content_type_name(t, st),
        ValueModel::Received(s) => s.clone(),
        ValueModel::Empty => String::new(),
    }
}

/// `char::is_control`: the `Cc` code points.
pub open spec fn is_control(c: char) -> bool {
    let u = c as u32;
    u <= 0x1f || (0x7f <= u && u <= 0x9f)
}

/// A file name character made safe: controls and path separators become `_`.
pub open spec fn safe_char(c: char) -> char {
    if is_control(c) || c == '/' || c == '\\' || c == ':' || c == '\0' {
        '_'
    } else {
        c
    }
}

/// First index at or after `i` that is not a `.`.
pub open spec fn dot_from(s: Seq<char>, i: int) -> int
    decreases s.len() - i,
{
    if 0 <= i < s.len() && s[i] == '.' {
        dot_from(s, i + 1)
    } else {
        i
    }
}

/// Smallest `k <= j` such that `s[k..j]` is all dots.
pub open spec fn dot_back(s: Seq<char>, j: int) -> int
    decreases j,
{
    if 0 < j <= s.len() && s[j - 1] == '.' {
        dot_back(s, j - 1)
    } else {
        j
    }
}

/// `str::trim_matches('.')`.
pub open spec fn trim_dots(s: Seq<char>) -> Seq<char> {
    let t = s.skip(dot_from(s, 0));
    t.take(dot_back(t, t.len() as int))
}

/// A file name that is safe to use as a path component.
pub open spec fn safe_filename_spec(f: Seq<char>) -> Seq<char> {
    let s = trim_dots(trim(f.map_values(|c: char| safe_char(c))));
    if s.len() == 0 {
        "attachment"@
    } else {
        s
    }
}

/// Replaces control characters and path separators with `_`, trims
/// whitespace and dots, and falls back to `attachment` when nothing is left.
pub fn safe_filename(filename: &str) -> (r: String)
    ensures
        r@ == safe_filename_spec(filename@),
{
    let cs = chars_of(filename);
    let mut mapped: Vec<char> = Vec::new();
    let mut i: usize = 0;
    while i < cs.len()
        invariant
            i <= cs@.len(),
            mapped@.len() == i,
            forall|k: int| 0 <= k < i ==> #[trigger] mapped@[k] == safe_char(cs@[k]),
        decreases cs.len() - i,
    {
        let c = cs[i];
        let u = c as u32;
        let bad = u <= 0x1f || (0x7f <= u && u <= 0x9f) || c == '/' || c == '\\' || c == ':' || c
            == '\0';
        mapped.push(if bad {
            '_'
        } else {
            c
        });
        i += 1;
    }
    assert(mapped@ =~= cs@.map_values(|c: char| safe_char(c)));
    let t = trim_chars(mapped.as_slice());
    let n = t.len();
    let mut a: usize = 0;
    while a < n && t[a] == '.'
        invariant
            a <= n == t@.len(),
            dot_from(t@, a as int) == dot_from(t@, 0),
        decreases n - a,
    {
        a += 1;
    }
    let u = sub_chars(t.as_slice(), a, n);
    let m = u.len();
    let mut b: usize = m;
    while b > 0 && u[b - 1] == '.'
        invariant
            b <= m == u@.len(),
            dot_back(u@, b as int) == dot_back(u@, m as int),
        decreases b,
    {
        b -= 1;
    }
    let v = sub_chars(u.as_slice(), 0, b);
    if v.len() == 0 {
        lit("attachment")
    } else {
        string_of(v.as_slice())
    }
}

} // verus!
