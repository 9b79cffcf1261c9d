use vstd::prelude::*;

verus! {

/// A JSON document. Numbers are kept as their JSON text, so that no
/// precision is lost between parsing and serialising; objects are lists of
/// entries in which a later entry for a key shadows an earlier one.
#[derive(Debug, PartialEq)]
pub enum Json {
    Null,
    Bool(bool),
    Number(String),
    Str(String),
    Array(Vec<Json>),
    Object(Vec<(String, Json)>),
}

/// The mathematical value of a JSON document.
pub enum JsonV {
    Null,
    Bool(bool),
    Number(Seq<char>),
    Str(Seq<char>),
    Array(Seq<JsonV>),
    Object(Seq<(Seq<char>, JsonV)>),
}

impl View for Json {
    type V = JsonV;

    open spec fn view(&self) -> JsonV
        decreases self,
    {
        match self {
            Json::Null => JsonV::Null,
            Json::Bool(b) => JsonV::Bool(*b),
            Json::Number(t) => JsonV::Number(t@),
            Json::Str(s) => JsonV::Str(s@),
            Json::Array(items) => JsonV::Array(
                Seq::new(
                    items@.len(),
                    |i: int|
                        if 0 <= i < items@.len() {
                            items@[i].view()
                        } else {
                            JsonV::Null
                        },
                ),
            ),
            Json::Object(entries) => JsonV::Object(
                Seq::new(
                    entries@.len(),
                    |i: int|
                        if 0 <= i < entries@.len() {
                            (entries@[i].0@, entries@[i].1.view())
                        } else {
                            (Seq::empty(), JsonV::Null)
                        },
                ),
            ),
        }
    }
}

/// The entries of an object, as values.
pub open spec fn entries_view(entries: Seq<(String, Json)>) -> Seq<(Seq<char>, JsonV)> {
    Seq::new(entries.len(), |i: int| (entries[i].0@, entries[i].1@))
}

/// The value that `entries` holds for `key`: that of its last entry with
/// that key.
pub open spec fn entry_value(entries: Seq<(Seq<char>, JsonV)>, key: Seq<char>) -> Option<JsonV>
    decreases entries.len(),
{
    if entries.len() == 0 {
        None
    } else if entries.last().0 == key {
        Some(entries.last().1)
    } else {
        entry_value(entries.drop_last(), key)
    }
}

/// `entries` without any entry for `key`, the others in their order.
pub open spec fn without_key(entries: Seq<(Seq<char>, JsonV)>, key: Seq<char>) -> Seq<
    (Seq<char>, JsonV),
>
    decreases entries.len(),
{
    if entries.len() == 0 {
        entries
    } else if entries.last().0 == key {
        without_key(entries.drop_last(), key)
    } else {
        without_key(entries.drop_last(), key).push(entries.last())
    }
}

/// The value of a decimal digit.
pub open spec fn digit_value(c: char) -> int {
    c as int - '0' as int
}

pub open spec fn is_digit(c: char) -> bool {
    '0' <= c <= '9'
}

/// The integer that a non-empty run of decimal digits denotes.
pub open spec fn digits_value(d: Seq<char>) -> int
    decreases d.len(),
{
    if d.len() == 0 {
        0
    } else {
        digits_value(d.drop_last()) * 10 + digit_value(d.last())
    }
}

pub open spec fn all_digits(d: Seq<char>) -> bool {
    d.len() > 0 && forall|i: int| 0 <= i < d.len() ==> is_digit(#[trigger] d[i])
}

/// The integer that a JSON number's text denotes, when it is written as an
/// integer (an optional minus sign and digits).
pub open spec fn integer_of_text(t: Seq<char>) -> Option<int> {
    if t.len() > 0 && t[0] == '-' && all_digits(t.drop_first()) {
        Some(-digits_value(t.drop_first()))
    } else if all_digits(t) {
        Some(digits_value(t))
    } else {
        None
    }
}

pub open spec fn fits_i64(v: int) -> bool {
    i64::MIN <= v <= i64::MAX
}

impl JsonV {
    /// The member `key` of an object; `None` for any other value.
    pub open spec fn member(self, key: Seq<char>) -> Option<JsonV> {
        match self {
            JsonV::Object(entries) => entry_value(entries, key),
            _ => None,
        }
    }

    /// The member `key` of the member `outer`.
    pub open spec fn member2(self, outer: Seq<char>, key: Seq<char>) -> Option<JsonV> {
        match self.member(outer) {
            Some(inner) => inner.member(key),
            None => None,
        }
    }

    /// An object without its member `key`; any other value unchanged.
    pub open spec fn without_member(self, key: Seq<char>) -> JsonV {
        match self {
            JsonV::Object(entries) => JsonV::Object(without_key(entries, key)),
            _ => self,
        }
    }

    /// An object whose member `key` is `value`, placed after the others; any
    /// other value unchanged.
    pub open spec fn with_member(self, key: Seq<char>, value: JsonV) -> JsonV {
        match self {
            JsonV::Object(entries) => JsonV::Object(without_key(entries, key).push((key, value))),
            _ => self,
        }
    }

    /// A number written as an integer that fits in `i64`.
    pub open spec fn i64_value(self) -> Option<int> {
        match self {
            JsonV::Number(t) => match integer_of_text(t) {
                Some(v) => if fits_i64(v) {
                    Some(v)
                } else {
                    None
                },
                None => None,
            },
            _ => None,
        }
    }
}

/// Removing a key that no entry has changes nothing.
pub proof fn lemma_without_absent(entries: Seq<(Seq<char>, JsonV)>, key: Seq<char>)
    requires
        entry_value(entries, key) is None,
    ensures
        without_key(entries, key) == entries,
    decreases entries.len(),
{
    if entries.len() > 0 {
        lemma_without_absent(entries.drop_last(), key);
        assert(entries.drop_last().push(entries.last()) =~= entries);
    }
}

/// After removing a key, no entry has it, and every other key keeps its
/// value.
pub proof fn lemma_without_lookup(entries: Seq<(Seq<char>, JsonV)>, key: Seq<char>, other: Seq<char>)
    ensures
        entry_value(without_key(entries, key), key) is None,
        other != key ==> entry_value(without_key(entries, key), other) == entry_value(
            entries,
            other,
        ),
    decreases entries.len(),
{
    if entries.len() > 0 {
        lemma_without_lookup(entries.drop_last(), key, other);
        let w = without_key(entries.drop_last(), key);
        assert(w.push(entries.last()).drop_last() =~= w);
    }
}

proof fn lemma_object_view(entries: Vec<(String, Json)>)
    ensures
        Json::Object(entries)@ == JsonV::Object(entries_view(entries@)),
{
    let j = Json::Object(entries);
    assert(j@ is Object);
    reveal_with_fuel(<Json as View>::view, 2);
    assert(j@->Object_0.len() == entries.len());
    assert(forall|i: int| 0 <= i < entries.len() ==> j@->Object_0[i] == (entries[i].0@, entries[i].1@));
    match j@ {
        JsonV::Object(s) => {
            assert(s =~= entries_view(entries@));
        },
        _ => {},
    }
}

proof fn lemma_array_view(items: Vec<Json>)
    ensures
        Json::Array(items)@ == JsonV::Array(Seq::new(items@.len(), |i: int| items@[i]@)),
{
    reveal_with_fuel(<Json as View>::view, 2);
    let j = Json::Array(items);
    match j@ {
        JsonV::Array(s) => {
            assert(s =~= Seq::new(items@.len(), |i: int| items@[i]@));
        },
        _ => {},
    }
}

proof fn lemma_digits_value_grows(d: Seq<char>, n: int)
    requires
        forall|i: int| 0 <= i < d.len() ==> is_digit(#[trigger] d[i]),
        0 <= n <= d.len(),
    ensures
        digits_value(d) >= digits_value(d.subrange(0, n)) >= 0,
    decreases d.len(),
{
    if n == d.len() {
        assert(d.subrange(0, n) =~= d);
        if d.len() > 0 {
            lemma_digits_value_grows(d.drop_last(), n - 1);
        }
    } else {
        lemma_digits_value_grows(d.drop_last(), n);
        assert(d.drop_last().subrange(0, n) =~= d.subrange(0, n));
    }
}

impl Json {
    /// The member `key` of an object, looked up from the last entry back.
    pub fn get(&self, key: &String) -> (r: Option<&Json>)
        ensures
            match r {
                Some(v) => self@.member(key@) == Some(v@),
                None => self@.member(key@) is None,
            },
    {
        match self {
            Json::Object(entries) => {
                proof {
                    lemma_object_view(*entries);
                }
                let ghost ev = entries_view(entries@);
                let mut i: usize = entries.len();
                assert(ev.subrange(0, i as int) =~= ev);
                while i > 0
                    invariant
                        i <= entries@.len(),
                        ev == entries_view(entries@),
                        self@.member(key@) == entry_value(ev, key@),
                        entry_value(ev, key@) == entry_value(ev.subrange(0, i as int), key@),
                    decreases i,
                {
                    let ghost prefix = ev.subrange(0, i as int);
                    assert(prefix.drop_last() =~= ev.subrange(0, i - 1));
                    if entries[i - 1].0 == *key {
                        return Some(&entries[i - 1].1);
                    }
                    i = i - 1;
                }
                None
            },
            _ => None,
        }
    }

    /// Removes every entry for `key` from an object; any other value is left
    /// as it is.
    pub fn remove_member(&mut self, key: &String)
        ensures
            final(self)@ == old(self)@.without_member(key@),
    {
        match self {
            Json::Object(entries) => {
                proof {
                    lemma_object_view(*entries);
                }
                let ghost orig = entries@;
                let ghost orig_ev = entries_view(orig);
                let mut i: usize = 0;
                let ghost mut k: int = 0;
                assert(entries@.subrange(0, 0) =~= Seq::<(String, Json)>::empty());
                assert(entries_view(entries@.subrange(0, 0)) =~= Seq::<(Seq<char>, JsonV)>::empty());
                assert(orig_ev.subrange(0, 0) =~= Seq::<(Seq<char>, JsonV)>::empty());
                assert(entries@.subrange(0, orig.len() as int) =~= orig);
                while i < entries.len()
                    invariant
                        0 <= k <= orig.len(),
                        i <= entries@.len(),
                        orig_ev == entries_view(orig),
                        entries@.len() - i == orig.len() - k,
                        entries_view(entries@.subrange(0, i as int)) == without_key(
                            orig_ev.subrange(0, k),
                            key@,
                        ),
                        entries@.subrange(i as int, entries@.len() as int) == orig.subrange(
                            k,
                            orig.len() as int,
                        ),
                    decreases entries@.len() - i,
                {
                    let ghost cur = entries@;
                    assert(cur[i as int] == orig[k]) by {
                        assert(cur.subrange(i as int, cur.len() as int)[0] == cur[i as int]);
                    }
                    assert(orig_ev.subrange(0, k + 1).drop_last() =~= orig_ev.subrange(0, k));
                    assert forall|j: int| 0 <= j < cur.len() - i - 1 implies #[trigger] cur.subrange(
                        i + 1,
                        cur.len() as int,
                    )[j] == orig.subrange(k + 1, orig.len() as int)[j] by {
                        assert(cur.subrange(i as int, cur.len() as int)[j + 1] == cur[i + 1 + j]);
                        assert(orig.subrange(k, orig.len() as int)[j + 1] == orig[k + 1 + j]);
                    }
                    assert(cur.subrange(i + 1, cur.len() as int) =~= orig.subrange(
                        k + 1,
                        orig.len() as int,
                    ));
                    if entries[i].0 == *key {
                        entries.remove(i);
                        assert(entries@.subrange(0, i as int) =~= cur.subrange(0, i as int));
                        assert(entries@.subrange(i as int, entries@.len() as int) =~= orig.subrange(
                            k + 1,
                            orig.len() as int,
                        ));
                    } else {
                        assert(entries_view(cur.subrange(0, i + 1)) =~= entries_view(
                            cur.subrange(0, i as int),
                        ).push(orig_ev[k]));
                        assert(cur.subrange(i + 1, cur.len() as int) =~= orig.subrange(
                            k + 1,
                            orig.len() as int,
                        ));
                        i = i + 1;
                    }
                    proof {
                        k = k + 1;
                    }
                }
                assert(entries@.subrange(0, i as int) =~= entries@);
                assert(orig_ev.subrange(0, k) =~= orig_ev);
                proof {
                    lemma_object_view(*entries);
                }
            },
            _ => {},
        }
    }

    /// Sets the member `key` of an object to `value`, after its other
    /// entries; any other value is left as it is.
    pub fn set_member(&mut self, key: String, value: Json)
        ensures
            final(self)@ == old(self)@.with_member(key@, value@),
    {
        self.remove_member(&key);
        match self {
            Json::Object(entries) => {
                proof {
                    lemma_object_view(*entries);
                }
                let ghost before = entries@;
                entries.push((key, value));
                proof {
                    lemma_object_view(*entries);
                    assert(entries_view(entries@) =~= entries_view(before).push((key@, value@)));
                }
            },
            _ => {},
        }
    }

    /// A copy of the document.
    pub fn copy(&self) -> (r: Json)
        ensures
            r@ == self@,
        decreases self,
    {
        match self {
            Json::Null => Json::Null,
            Json::Bool(b) => Json::Bool(*b),
            Json::Number(t) => Json::Number(t.clone()),
            Json::Str(s) => Json::Str(s.clone()),
            Json::Array(items) => {
                let mut out: Vec<Json> = Vec::new();
                let mut i: usize = 0;
                while i < items.len()
                    invariant
                        i <= items@.len(),
                        out@.len() == i,
                        *self == Json::Array(*items),
                        forall|j: int| 0 <= j < i ==> (#[trigger] out@[j])@ == items@[j]@,
                    decreases items@.len() - i,
                {
                    proof {
                        vstd::std_specs::vec::axiom_vec_index_decreases(*items, i as int);
                        assert(decreases_to!(*self => self->Array_0));
                    }
                    out.push(items[i].copy());
                    i = i + 1;
                }
                proof {
                    lemma_array_view(out);
                    lemma_array_view(*items);
                    assert(Seq::new(out@.len(), |i: int| out@[i]@) =~= Seq::new(
                        items@.len(),
                        |i: int| items@[i]@,
                    ));
                }
                Json::Array(out)
            },
            Json::Object(entries) => {
                let mut out: Vec<(String, Json)> = Vec::new();
                let mut i: usize = 0;
                while i < entries.len()
                    invariant
                        i <= entries@.len(),
                        out@.len() == i,
                        *self == Json::Object(*entries),
                        forall|j: int|
                            0 <= j < i ==> (#[trigger] out@[j]).0@ == entries@[j].0@ && out@[j].1@
                                == entries@[j].1@,
                    decreases entries@.len() - i,
                {
                    proof {
                        vstd::std_specs::vec::axiom_vec_index_decreases(*entries, i as int);
                        assert(decreases_to!(*self => self->Object_0));
                        assert(decreases_to!(entries[i as int] => entries[i as int].1));
                    }
                    let value = entries[i].1.copy();
                    out.push((entries[i].0.clone(), value));
                    i = i + 1;
                }
                proof {
                    lemma_object_view(out);
                    lemma_object_view(*entries);
                    assert(entries_view(out@) =~= entries_view(entries@));
                }
                Json::Object(out)
            },
        }
    }

    /// The text of a string value.
    pub fn as_str(&self) -> (r: Option<&String>)
        ensures
            match r {
                Some(s) => self@ == JsonV::Str(s@),
                None => !(self@ is Str),
            },
    {
        match self {
            Json::Str(s) => Some(s),
            _ => None,
        }
    }

    /// The value of a boolean.
    pub fn as_bool(&self) -> (r: Option<bool>)
        ensures
            match r {
                Some(b) => self@ == JsonV::Bool(b),
                None => !(self@ is Bool),
            },
    {
        match self {
            Json::Bool(b) => Some(*b),
            _ => None,
        }
    }

    /// The value of a number written as an integer that fits in `i64`.
    pub fn as_i64(&self) -> (r: Option<i64>)
        ensures
            r matches Some(v) ==> self@.i64_value() == Some(v as int),
            r is None ==> self@.i64_value() is None,
    {
        match self {
            Json::Number(text) => {
                let t = text.as_str();
                let n = t.unicode_len();
                let negative = n > 0 && t.get_char(0) == '-';
                let start: usize = if negative {
                    1
                } else {
                    0
                };
                if start >= n {
                    return None;
                }
                let ghost digits = t@.subrange(start as int, n as int);
                if negative {
                    assert(t@.drop_first() =~= digits);
                    assert(!is_digit(t@[0]));
                } else {
                    assert(t@ =~= digits);
                }
                let limit: u64 = 9223372036854775808;
                let mut acc: u64 = 0;
                let mut i: usize = start;
                while i < n
                    invariant
                        start <= i <= n,
                        n == t@.len(),
                        digits == t@.subrange(start as int, n as int),
                        limit == 9223372036854775808u64,
                        acc <= limit,
                        self@ == JsonV::Number(t@),
                        negative ==> t@.len() > 0 && t@[0] == '-' && t@.drop_first() == digits,
                        !negative ==> t@ == digits && (t@.len() > 0 ==> t@[0] != '-'),
                        acc == digits_value(digits.subrange(0, i - start)),
                        forall|k: int| 0 <= k < i - start ==> is_digit(#[trigger] digits[k]),
                    decreases n - i,
                {
                    let c = t.get_char(i);
                    if !('0' <= c && c <= '9') {
                        assert(!is_digit(digits[i - start]));
                        return None;
                    }
                    assert(48 <= c as u32 <= 57);
                    let d = (c as u32 - 48) as u64;
                    assert(d <= 9 && d == digit_value(c));
                    let ghost before = digits.subrange(0, i - start);
                    let ghost after = digits.subrange(0, i + 1 - start);
                    assert(after.drop_last() =~= before);
                    if acc > (limit - d) / 10 {
                        // The digits so far already denote more than any i64
                        // holds, and more digits only make the number larger.
                        proof {
                            assert(digits_value(after) > limit);
                            if all_digits(digits) {
                                lemma_digits_value_grows(digits, i + 1 - start);
                            }
                        }
                        return None;
                    }
                    acc = acc * 10 + d;
                    i = i + 1;
                }
                assert(digits.subrange(0, n - start) =~= digits);
                if negative {
                    assert(t@.drop_first() =~= digits);
                    if acc == limit {
                        Some(i64::MIN)
                    } else {
                        Some(-(acc as i64))
                    }
                } else {
                    assert(t@ =~= digits);
                    if acc == limit {
                        None
                    } else {
                        Some(acc as i64)
                    }
                }
            },
            _ => None,
        }
    }
}

} // verus!
