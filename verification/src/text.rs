//! Character-level helpers shared by the wire formats: searching, digit
//! rendering and digit parsing, all specified over `Seq<char>`.
use vstd::prelude::*;

verus! {

/// Index of the first occurrence of `c` in `s`, if any.
pub open spec fn find_char(s: Seq<char>, c: char) -> Option<int>
    decreases s.len(),
{
    if s.len() == 0 {
        None
    } else if s[0] == c {
        Some(0)
    } else {
        match find_char(s.drop_first(), c) {
            Some(i) => Some(i + 1),
            None => None,
        }
    }
}

/// What `find_char` returns, stated without recursion.
pub proof fn lemma_find_char(s: Seq<char>, c: char)
    ensures
        match find_char(s, c) {
            Some(i) => 0 <= i < s.len() && s[i] == c && forall|k: int| 0 <= k < i ==> s[k] != c,
            None => forall|k: int| 0 <= k < s.len() ==> s[k] != c,
        },
    decreases s.len(),
{
    if s.len() > 0 && s[0] != c {
        lemma_find_char(s.drop_first(), c);
        match find_char(s.drop_first(), c) {
            Some(i) => {
                assert forall|k: int| 0 <= k < i + 1 implies s[k] != c by {
                    if k > 0 {
                        assert(s[k] == s.drop_first()[k - 1]);
                    }
                }
            },
            None => {
                assert forall|k: int| 0 <= k < s.len() implies s[k] != c by {
                    if k > 0 {
                        assert(s[k] == s.drop_first()[k - 1]);
                    }
                }
            },
        }
    }
}

/// A first occurrence found by a scan is what `find_char` returns.
pub proof fn lemma_find_char_at(s: Seq<char>, c: char, i: int)
    requires
        0 <= i < s.len(),
        s[i] == c,
        forall|k: int| 0 <= k < i ==> s[k] != c,
    ensures
        find_char(s, c) == Some(i),
{
    lemma_find_char(s, c);
    match find_char(s, c) {
        Some(j) => {
            if j < i {
                assert(s[j] != c);
            }
            if i < j {
                assert(s[i] != c);
            }
        },
        None => {
            assert(s[i] != c);
        },
    }
}

/// A scan that meets no occurrence means `find_char` returns `None`.
pub proof fn lemma_find_char_absent(s: Seq<char>, c: char)
    requires
        forall|k: int| 0 <= k < s.len() ==> s[k] != c,
    ensures
        find_char(s, c) == None::<int>,
{
    lemma_find_char(s, c);
    match find_char(s, c) {
        Some(j) => {
            assert(s[j] != c);
        },
        None => {},
    }
}

/// Searches `v[from..to]` for `c`; the index returned is absolute.
pub fn find_char_in(v: &Vec<char>, c: char, from: usize, to: usize) -> (r: Option<usize>)
    requires
        from <= to <= v.len(),
    ensures
        match r {
            Some(i) => from <= i < to && find_char(v@.subrange(from as int, to as int), c) == Some(
                i - from,
            ),
            None => find_char(v@.subrange(from as int, to as int), c) == None::<int>,
        },
{
    let ghost s = v@.subrange(from as int, to as int);
    let mut i = from;
    while i < to
        invariant
            from <= i <= to <= v.len(),
            s == v@.subrange(from as int, to as int),
            forall|k: int| 0 <= k < i - from ==> s[k] != c,
        decreases to - i,
    {
        if v[i] == c {
            proof {
                lemma_find_char_at(s, c, i - from);
            }
            return Some(i);
        }
        i += 1;
    }
    proof {
        lemma_find_char_absent(s, c);
    }
    None
}

/// Collects the characters of a string slice.
pub fn chars_of(s: &str) -> (v: Vec<char>)
    ensures
        v@ == s@,
{
    let mut v: Vec<char> = Vec::new();
    for c in it: s.chars()
        invariant
            v@ == it.seq().take(it.index() as int),
    {
        v.push(c);
    }
    v
}

/// Whether two character vectors hold the same characters.
pub fn chars_eq(a: &Vec<char>, b: &Vec<char>) -> (r: bool)
    ensures
        r == (a@ == b@),
{
    if a.len() != b.len() {
        return false;
    }
    let mut i: usize = 0;
    while i < a.len()
        invariant
            a.len() == b.len(),
            i <= a.len(),
            forall|k: int| 0 <= k < i ==> a@[k] == b@[k],
        decreases a.len() - i,
    {
        if a[i] != b[i] {
            return false;
        }
        i += 1;
    }
    assert(a@ =~= b@);
    true
}

/// Whether two string slices hold the same characters.
pub fn str_eq(a: &str, b: &str) -> (r: bool)
    ensures
        r == (a@ == b@),
{
    let va = chars_of(a);
    let vb = chars_of(b);
    chars_eq(&va, &vb)
}

/// A decimal digit character.
pub open spec fn is_digit(c: char) -> bool {
    '0' <= c <= '9'
}

/// The value of a decimal digit character.
pub open spec fn digit_value(c: char) -> int {
    c as int - '0' as int
}

/// The character of a decimal digit.
pub open spec fn digit_char(d: int) -> char {
    (d + '0' as int) as char
}

/// The three characters of a number below 1000, zero padded.
pub open spec fn three_digits(n: int) -> Seq<char> {
    seq![digit_char(n / 100), digit_char((n / 10) % 10), digit_char(n % 10)]
}

/// The string of one decimal digit.
pub fn digit_str(d: u8) -> (s: &'static str)
    requires
        d <= 9,
    ensures
        s@ == seq![digit_char(d as int)],
{
    proof {
        reveal_strlit("0");
        reveal_strlit("1");
        reveal_strlit("2");
        reveal_strlit("3");
        reveal_strlit("4");
        reveal_strlit("5");
        reveal_strlit("6");
        reveal_strlit("7");
        reveal_strlit("8");
        reveal_strlit("9");
    }
    let s = match d {
        0 => "0",
        1 => "1",
        2 => "2",
        3 => "3",
        4 => "4",
        5 => "5",
        6 => "6",
        7 => "7",
        8 => "8",
        _ => "9",
    };
    assert(s@ =~= seq![digit_char(d as int)]);
    s
}

/// Appends the three zero-padded digits of `n` to `out`.
pub fn push_three_digits(out: &mut String, n: u16)
    requires
        n <= 999,
    ensures
        final(out)@ == old(out)@ + three_digits(n as int),
{
    let a = (n / 100) as u8;
    let b = ((n / 10) % 10) as u8;
    let c = (n % 10) as u8;
    out.append(digit_str(a));
    out.append(digit_str(b));
    out.append(digit_str(c));
    assert(final(out)@ =~= old(out)@ + three_digits(n as int));
}

/// The decimal value of a client ID field, the way the standard library's
/// integer parsing reads three characters: three digits, or a plus sign
/// followed by two digits.
pub open spec fn parse_three_digits(p: Seq<char>) -> Option<u16> {
    if p.len() == 3 && is_digit(p[0]) && is_digit(p[1]) && is_digit(p[2]) {
        Some((100 * digit_value(p[0]) + 10 * digit_value(p[1]) + digit_value(p[2])) as u16)
    } else if p.len() == 3 && p[0] == '+' && is_digit(p[1]) && is_digit(p[2]) {
        Some((10 * digit_value(p[1]) + digit_value(p[2])) as u16)
    } else {
        None
    }
}

/// The decimal value of a one-character field.
pub open spec fn parse_one_digit(p: Seq<char>) -> Option<u8> {
    if p.len() == 1 && is_digit(p[0]) {
        Some(digit_value(p[0]) as u8)
    } else {
        None
    }
}

/// Reads `v[from..to]` as a three-character client ID.
pub fn read_three_digits(v: &Vec<char>, from: usize, to: usize) -> (r: Option<u16>)
    requires
        from <= to <= v.len(),
    ensures
        r == parse_three_digits(v@.subrange(from as int, to as int)),
{
    let ghost p = v@.subrange(from as int, to as int);
    if to - from != 3 {
        return None;
    }
    let c0 = v[from];
    let c1 = v[from + 1];
    let c2 = v[from + 2];
    assert(p[0] == c0 && p[1] == c1 && p[2] == c2);
    if '0' <= c1 && c1 <= '9' && '0' <= c2 && c2 <= '9' {
        let d1 = (c1 as u32 - '0' as u32) as u16;
        let d2 = (c2 as u32 - '0' as u32) as u16;
        if '0' <= c0 && c0 <= '9' {
            let d0 = (c0 as u32 - '0' as u32) as u16;
            Some(100 * d0 + 10 * d1 + d2)
        } else if c0 == '+' {
            Some(10 * d1 + d2)
        } else {
            None
        }
    } else {
        None
    }
}

/// Reads `v[from..to]` as a one-character message ID.
pub fn read_one_digit(v: &Vec<char>, from: usize, to: usize) -> (r: Option<u8>)
    requires
        from <= to <= v.len(),
    ensures
        r == parse_one_digit(v@.subrange(from as int, to as int)),
{
    let ghost p = v@.subrange(from as int, to as int);
    if to - from != 1 {
        return None;
    }
    let c = v[from];
    assert(p[0] == c);
    if '0' <= c && c <= '9' {
        Some((c as u32 - '0' as u32) as u8)
    } else {
        None
    }
}

/// The characters `v[from..to]` as a new vector.
pub fn sub_chars(v: &Vec<char>, from: usize, to: usize) -> (r: Vec<char>)
    requires
        from <= to <= v.len(),
    ensures
        r@ == v@.subrange(from as int, to as int),
{
    let mut r: Vec<char> = Vec::new();
    let mut i = from;
    while i < to
        invariant
            from <= i <= to <= v.len(),
            r@ == v@.subrange(from as int, i as int),
        decreases to - i,
    {
        r.push(v[i]);
        i += 1;
        assert(r@ =~= v@.subrange(from as int, i as int));
    }
    r
}

/// The characters `v[from..to]` as a new string; `s` holds the same
/// characters as `v`.
pub fn string_of_range(s: &str, v: &Vec<char>, from: usize, to: usize) -> (r: String)
    requires
        v@ == s@,
        from <= to <= v.len(),
    ensures
        r@ == v@.subrange(from as int, to as int),
{
    let part = s.substring_char(from, to);
    String::from_str(part)
}


/// The comma-separated parts of `s`, empty parts included.
pub open spec fn split_commas(s: Seq<char>) -> Seq<Seq<char>>
    decreases s.len(),
{
    match find_char(s, ',') {
        None => seq![s],
        Some(i) => if 0 <= i < s.len() {
            seq![s.take(i)] + split_commas(s.skip(i + 1))
        } else {
            seq![s]
        },
    }
}

/// Each item preceded by a comma.
pub open spec fn render_items(items: Seq<Seq<char>>) -> Seq<char>
    decreases items.len(),
{
    if items.len() == 0 {
        Seq::empty()
    } else {
        render_items(items.drop_last()) + seq![','] + items.last()
    }
}

/// The strings of `v` as character sequences.
pub open spec fn strings_view(v: Seq<String>) -> Seq<Seq<char>> {
    Seq::new(v.len(), |i: int| v[i]@)
}

/// Splits `v[from..to]` at every comma.
pub fn read_parts(s: &str, v: &Vec<char>, from: usize, to: usize) -> (r: Vec<String>)
    requires
        v@ == s@,
        from <= to <= v.len(),
    ensures
        strings_view(r@) == split_commas(v@.subrange(from as int, to as int)),
{
    let mut out: Vec<String> = Vec::new();
    let mut pos = from;
    loop
        invariant
            v@ == s@,
            from <= pos <= to <= v.len(),
            strings_view(out@) + split_commas(v@.subrange(pos as int, to as int)) == split_commas(
                v@.subrange(from as int, to as int),
            ),
        decreases to - pos,
    {
        let ghost rest = v@.subrange(pos as int, to as int);
        let ghost before = out@;
        proof {
            lemma_find_char(rest, ',');
        }
        match find_char_in(v, ',', pos, to) {
            None => {
                let part = string_of_range(s, v, pos, to);
                out.push(part);
                assert(strings_view(out@) =~= strings_view(before) + split_commas(rest));
                return out;
            },
            Some(j) => {
                assert(rest.take(j - pos) =~= v@.subrange(pos as int, j as int));
                assert(rest.skip(j - pos + 1) =~= v@.subrange(j + 1, to as int));
                let part = string_of_range(s, v, pos, j);
                out.push(part);
                assert(strings_view(out@) + split_commas(v@.subrange(j + 1, to as int))
                    =~= strings_view(before) + split_commas(rest));
                pos = j + 1;
            },
        }
    }
}

/// Appends each string of `items` preceded by a comma.
pub fn push_items(out: &mut String, items: &Vec<String>)
    ensures
        final(out)@ == old(out)@ + render_items(strings_view(items@)),
{
    let ghost head = out@;
    let mut i: usize = 0;
    while i < items.len()
        invariant
            i <= items.len(),
            out@ == head + render_items(strings_view(items@).take(i as int)),
        decreases items.len() - i,
    {
        let ghost before = out@;
        out.append(",");
        out.append(items[i].as_str());
        proof {
            reveal_strlit(",");
            let ex = strings_view(items@).take(i + 1);
            assert(ex.drop_last() =~= strings_view(items@).take(i as int));
        }
        assert(out@ =~= before + seq![','] + items@[i as int]@);
        i += 1;
    }
    assert(strings_view(items@).take(items.len() as int) =~= strings_view(items@));
}

proof fn lemma_render_items_front(items: Seq<Seq<char>>)
    requires
        items.len() > 0,
    ensures
        render_items(items) == seq![','] + items[0] + render_items(items.drop_first()),
    decreases items.len(),
{
    if items.len() == 1 {
        assert(items.drop_first() =~= Seq::<Seq<char>>::empty());
        assert(items.drop_last() =~= Seq::<Seq<char>>::empty());
        assert(render_items(items.drop_last()) =~= Seq::<char>::empty());
        assert(render_items(items.drop_first()) =~= Seq::<char>::empty());
        assert(render_items(items) =~= seq![','] + items[0]);
    } else {
        lemma_render_items_front(items.drop_last());
        assert(items.drop_last().drop_first() =~= items.drop_first().drop_last());
        assert(items.drop_first().last() == items.last());
        assert(items.drop_last()[0] == items[0]);
    }
}

/// Splitting the text of comma-free items gives the items back:
/// `split_commas(first + render_items(items)) == [first] + items`.
pub proof fn lemma_split_render_items(first: Seq<char>, items: Seq<Seq<char>>)
    requires
        !first.contains(','),
        forall|i: int| 0 <= i < items.len() ==> !(#[trigger] items[i]).contains(','),
    ensures
        split_commas(first + render_items(items)) == seq![first] + items,
    decreases items.len(),
{
    let s = first + render_items(items);
    assert forall|k: int| 0 <= k < first.len() implies s[k] != ',' by {
        if s[k] == ',' {
            assert(first[k] == ',');
        }
    }
    if items.len() == 0 {
        assert(render_items(items) =~= Seq::<char>::empty());
        assert(s =~= first);
        lemma_find_char_absent(s, ',');
        assert(seq![first] + items =~= seq![first]);
    } else {
        lemma_render_items_front(items);
        let rest = items.drop_first();
        assert(s =~= first + seq![','] + (items[0] + render_items(rest)));
        lemma_find_char_at(s, ',', first.len() as int);
        assert(s.take(first.len() as int) =~= first);
        assert(s.skip(first.len() as int + 1) =~= items[0] + render_items(rest));
        assert forall|i: int| 0 <= i < rest.len() implies !(#[trigger] rest[i]).contains(',') by {
            assert(rest[i] == items[i + 1]);
        }
        lemma_split_render_items(items[0], rest);
        assert(seq![first] + (seq![items[0]] + rest) =~= seq![first] + items);
    }
}

/// Splitting yields at least one part.
pub proof fn lemma_split_commas_nonempty(s: Seq<char>)
    ensures
        split_commas(s).len() >= 1,
    decreases s.len(),
{
    lemma_find_char(s, ',');
}

/// The three digits of a number below 1000 read back as that number.
pub proof fn lemma_three_digits(n: int)
    requires
        0 <= n <= 999,
    ensures
        parse_three_digits(three_digits(n)) == Some(n as u16),
        forall|k: int| 0 <= k < 3 ==> is_digit(#[trigger] three_digits(n)[k]),
{
    let d0 = n / 100;
    let d1 = (n / 10) % 10;
    let d2 = n % 10;
    assert(0 <= d0 <= 9 && 0 <= d1 <= 9 && 0 <= d2 <= 9);
    assert(100 * d0 + 10 * d1 + d2 == n);
    let t = three_digits(n);
    assert(digit_char(d0) as int == d0 + '0' as int);
    assert(digit_char(d1) as int == d1 + '0' as int);
    assert(digit_char(d2) as int == d2 + '0' as int);
    assert(t[0] == digit_char(d0) && t[1] == digit_char(d1) && t[2] == digit_char(d2));
}


/// The decimal digits of `n`, most significant first.
pub open spec fn dec_digits(n: nat) -> Seq<char>
    decreases n,
{
    if n < 10 {
        seq![digit_char(n as int)]
    } else {
        dec_digits(n / 10) + seq![digit_char((n % 10) as int)]
    }
}

/// `s` left-padded with zeros to at least `width` characters.
pub open spec fn zero_pad(s: Seq<char>, width: nat) -> Seq<char> {
    if s.len() >= width {
        s
    } else {
        Seq::new((width - s.len()) as nat, |i: int| '0') + s
    }
}

/// Appends the decimal digits of `n`.
pub fn push_decimal(out: &mut String, n: u64)
    ensures
        final(out)@ == old(out)@ + dec_digits(n as nat),
    decreases n,
{
    if n < 10 {
        out.append(digit_str(n as u8));
    } else {
        push_decimal(out, n / 10);
        out.append(digit_str((n % 10) as u8));
        assert(final(out)@ =~= old(out)@ + dec_digits(n as nat));
    }
}

proof fn lemma_dec_digits_len(n: nat)
    ensures
        dec_digits(n).len() >= 1,
        n < 10 <==> dec_digits(n).len() == 1,
        n < 100 <==> dec_digits(n).len() <= 2,
    decreases n,
{
    if n >= 10 {
        lemma_dec_digits_len(n / 10);
    }
}

/// Appends `n` in decimal, zero padded to three digits.
pub fn push_padded3(out: &mut String, n: u64)
    ensures
        final(out)@ == old(out)@ + zero_pad(dec_digits(n as nat), 3),
{
    proof {
        lemma_dec_digits_len(n as nat);
        reveal_strlit("0");
        reveal_strlit("00");
    }
    if n < 10 {
        out.append("00");
    } else if n < 100 {
        out.append("0");
    }
    push_decimal(out, n);
    assert(final(out)@ =~= old(out)@ + zero_pad(dec_digits(n as nat), 3));
}

/// `n` in decimal, zero padded to three digits, as a new string.
pub fn padded3(n: u64) -> (s: String)
    ensures
        s@ == zero_pad(dec_digits(n as nat), 3),
{
    let mut s = String::new();
    push_padded3(&mut s, n);
    s
}

/// `n` in decimal, zero padded to three digits.
pub open spec fn pad3(n: nat) -> Seq<char> {
    zero_pad(dec_digits(n), 3)
}

/// The items with `sep` between each two.
pub open spec fn join_with(items: Seq<Seq<char>>, sep: Seq<char>) -> Seq<char>
    decreases items.len(),
{
    if items.len() == 0 {
        Seq::empty()
    } else if items.len() == 1 {
        items[0]
    } else {
        join_with(items.drop_last(), sep) + sep + items.last()
    }
}

/// Appends the strings of `items` with `sep` between each two.
pub fn push_joined(out: &mut String, items: &Vec<String>, sep: &str)
    ensures
        final(out)@ == old(out)@ + join_with(strings_view(items@), sep@),
{
    let ghost head = out@;
    let ghost all = strings_view(items@);
    let mut i: usize = 0;
    while i < items.len()
        invariant
            i <= items.len(),
            all == strings_view(items@),
            out@ == head + join_with(all.take(i as int), sep@),
        decreases items.len() - i,
    {
        let ghost before = out@;
        if i > 0 {
            out.append(sep);
        }
        out.append(items[i].as_str());
        proof {
            let t = all.take(i + 1);
            assert(t.last() == items@[i as int]@);
            if i > 0 {
                assert(t.drop_last() =~= all.take(i as int));
                assert(out@ =~= before + sep@ + items@[i as int]@);
            } else {
                assert(all.take(i as int) =~= Seq::<Seq<char>>::empty());
                assert(out@ =~= head + t[0]);
            }
        }
        i += 1;
    }
    assert(all.take(items.len() as int) =~= all);
}

} // verus!
