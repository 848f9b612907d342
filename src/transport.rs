//! Splitting of long replies into chunks that fit a byte budget, each
//! numbered when there are several.
use vstd::prelude::*;

use crate::text::{chars_of, decimal, digit, push_decimal, string_of, views};

verus! {

/// The number of bytes of `c` in UTF-8.
pub open spec fn width(c: char) -> nat {
    let u = c as u32;
    if u <= 0x7f {
        1
    } else if u <= 0x7ff {
        2
    } else if u <= 0xffff {
        3
    } else {
        4
    }
}

/// The number of bytes of `s` in UTF-8.
pub open spec fn byte_len(s: Seq<char>) -> nat
    decreases s.len(),
{
    if s.len() == 0 {
        0
    } else {
        byte_len(s.drop_last()) + width(s.last())
    }
}

pub proof fn lemma_byte_len_concat(a: Seq<char>, b: Seq<char>)
    ensures
        byte_len(a + b) == byte_len(a) + byte_len(b),
    decreases b.len(),
{
    if b.len() == 0 {
        assert(a + b =~= a);
    } else {
        assert((a + b).drop_last() =~= a + b.drop_last());
        lemma_byte_len_concat(a, b.drop_last());
    }
}

proof fn lemma_byte_len_single(c: char)
    ensures
        byte_len(seq![c]) == width(c),
{
    assert(seq![c].drop_last() =~= Seq::<char>::empty());
    assert(seq![c].last() == c);
    assert(byte_len(Seq::<char>::empty()) == 0);
}

proof fn lemma_byte_len_first(s: Seq<char>)
    requires
        s.len() > 0,
    ensures
        byte_len(s) == width(s[0]) + byte_len(s.drop_first()),
{
    assert(s =~= seq![s[0]] + s.drop_first());
    lemma_byte_len_concat(seq![s[0]], s.drop_first());
    lemma_byte_len_single(s[0]);
}

/// `byte_len` is the length of the UTF-8 encoding.
pub proof fn lemma_byte_len_is_utf8_len(s: Seq<char>)
    ensures
        byte_len(s) == vstd::utf8::encode_utf8(s).len(),
    decreases s.len(),
{
    if s.len() > 0 {
        lemma_byte_len_first(s);
        lemma_byte_len_is_utf8_len(s.drop_first());
        let c = s[0];
        vstd::utf8::char_is_scalar(c);
        reveal_with_fuel(vstd::utf8::encode_utf8, 1);
    }
}

/// Characters below 0x80 take one byte each.
proof fn lemma_byte_len_ascii(s: Seq<char>)
    requires
        forall|k: int| 0 <= k < s.len() ==> (s[k] as u32) < 0x80,
    ensures
        byte_len(s) == s.len(),
    decreases s.len(),
{
    if s.len() > 0 {
        lemma_byte_len_ascii(s.drop_last());
    }
}

/// The lines of `s`, each with its line break, as `str::split_inclusive('\n')`
/// yields them; the last one may lack the break.
pub open spec fn split_lines(s: Seq<char>) -> Seq<Seq<char>>
    decreases s.len(),
{
    if s.len() == 0 {
        Seq::empty()
    } else {
        let rest = split_lines(s.drop_first());
        if s[0] == '\n' || rest.len() == 0 {
            seq![seq![s[0]]] + rest
        } else {
            rest.update(0, seq![s[0]] + rest[0])
        }
    }
}

/// How many leading characters of `s` fit in `budget` bytes.
pub open spec fn fit(s: Seq<char>, budget: nat) -> nat
    decreases s.len(),
{
    if s.len() == 0 || width(s[0]) > budget {
        0
    } else {
        1 + fit(s.drop_first(), (budget - width(s[0])) as nat)
    }
}

/// The longest prefix of `s` that fits in `budget` bytes: the cut removes the
/// fewest trailing bytes and never splits a character.
pub open spec fn truncate(s: Seq<char>, budget: nat) -> Seq<char> {
    s.take(fit(s, budget) as int)
}

/// Packing of the lines `ls` into chunks of at most `max` bytes, after the
/// chunks `done` and with the chunk `cur` being filled.
pub open spec fn pack(ls: Seq<Seq<char>>, max: nat, done: Seq<Seq<char>>, cur: Seq<char>) -> Seq<
    Seq<char>,
>
    decreases ls.len(),
{
    if ls.len() == 0 {
        if cur.len() > 0 {
            done.push(cur)
        } else {
            done
        }
    } else {
        let l = ls[0];
        let rest = ls.drop_first();
        if byte_len(l) > max {
            let d = if cur.len() > 0 {
                done.push(cur)
            } else {
                done
            };
            pack(rest, max, d.push(truncate(l, max)), Seq::empty())
        } else if byte_len(cur) + byte_len(l) > max {
            pack(rest, max, done.push(cur), l)
        } else {
            pack(rest, max, done, cur + l)
        }
    }
}

/// The label `[i/total]` of chunk `i` of `total`.
pub open spec fn label(i: nat, total: nat) -> Seq<char> {
    "["@ + decimal(i) + "/"@ + decimal(total) + "]"@
}

/// The footer of chunk `i` of `total`: a blank line, then its label.
pub open spec fn footer(i: nat, total: nat) -> Seq<char> {
    "\n\n"@ + label(i, total)
}

/// The bytes left for the content of chunk `i` of `total` beside its footer.
pub open spec fn room(max: nat, i: nat, total: nat) -> nat {
    let f = byte_len(footer(i, total));
    if max >= f {
        (max - f) as nat
    } else {
        0
    }
}

/// The chunks `raw`, each cut to make room for its footer and followed by
/// it, when there are several.
pub open spec fn with_footers(raw: Seq<Seq<char>>, max: nat) -> Seq<Seq<char>> {
    if raw.len() > 1 {
        Seq::new(
            raw.len(),
            |i: int|
                truncate(raw[i], room(max, (i + 1) as nat, raw.len())) + footer(
                    (i + 1) as nat,
                    raw.len(),
                ),
        )
    } else {
        raw
    }
}

/// The chunks of `text` for a budget of `max` bytes.
pub open spec fn chunks_of(text: Seq<char>, max: nat) -> Seq<Seq<char>> {
    with_footers(pack(split_lines(text), max, Seq::empty(), Seq::empty()), max)
}

fn char_width(c: char) -> (w: usize)
    ensures
        w == width(c),
{
    let u = c as u32;
    if u <= 0x7f {
        1
    } else if u <= 0x7ff {
        2
    } else if u <= 0xffff {
        3
    } else {
        4
    }
}

/// A run `s[i..j]` that holds no line break before its last character, and
/// ends with one or at the end of `s`, is the first line of `s[i..]`.
proof fn lemma_split_lines_run(s: Seq<char>, i: int, j: int)
    requires
        0 <= i < j <= s.len(),
        forall|k: int| i <= k < j - 1 ==> s[k] != '\n',
        s[j - 1] == '\n' || j == s.len(),
    ensures
        split_lines(s.skip(i)) == seq![s.subrange(i, j)] + split_lines(s.skip(j)),
    decreases j - i,
{
    let t = s.skip(i);
    assert(t.drop_first() =~= s.skip(i + 1));
    if i + 1 == j {
        assert(s.subrange(i, j) =~= seq![s[i]]);
        if s[i] != '\n' {
            assert(s.skip(j) =~= Seq::<char>::empty());
        }
    } else {
        lemma_split_lines_run(s, i + 1, j);
        assert(s.subrange(i, j) =~= seq![s[i]] + s.subrange(i + 1, j));
        assert(split_lines(t) =~= seq![s.subrange(i, j)] + split_lines(s.skip(j)));
    }
}

/// The number of leading characters of `v` that fit in `budget` bytes.
fn fit_len(v: &Vec<char>, budget: usize) -> (k: usize)
    ensures
        k == fit(v@, budget as nat),
{
    let mut k: usize = 0;
    let mut used: usize = 0;
    assert(v@.skip(0) =~= v@);
    while k < v.len() && char_width(v[k]) <= budget - used
        invariant
            k <= v@.len(),
            used <= budget,
            fit(v@, budget as nat) == k + fit(v@.skip(k as int), (budget - used) as nat),
        decreases v@.len() - k,
    {
        assert(v@.skip(k as int).drop_first() =~= v@.skip(k + 1));
        used = used + char_width(v[k]);
        k = k + 1;
    }
    assert(fit(v@.skip(k as int), (budget - used) as nat) == 0);
    k
}

/// The longest prefix of `v` that fits in `budget` bytes.
fn truncated(v: &Vec<char>, budget: usize) -> (r: String)
    ensures
        r@ == truncate(v@, budget as nat),
{
    proof {
        lemma_fit_le(v@, budget as nat);
    }
    let k = fit_len(v, budget);
    string_of(v, 0, k)
}

proof fn lemma_fit_le(s: Seq<char>, budget: nat)
    ensures
        fit(s, budget) <= s.len(),
        byte_len(truncate(s, budget)) <= budget,
    decreases s.len(),
{
    if s.len() == 0 || width(s[0]) > budget {
        assert(s.take(0) =~= Seq::<char>::empty());
    } else {
        let b2 = (budget - width(s[0])) as nat;
        lemma_fit_le(s.drop_first(), b2);
        let t = truncate(s, budget);
        assert(t =~= seq![s[0]] + truncate(s.drop_first(), b2));
        lemma_byte_len_concat(seq![s[0]], truncate(s.drop_first(), b2));
        lemma_byte_len_single(s[0]);
    }
}

/// The byte length of `v[i..j]`, found with the end `j` of the line that
/// starts at `i`.
fn line_end(v: &Vec<char>, i: usize) -> (r: (usize, usize))
    requires
        i < v@.len(),
        byte_len(v@) <= usize::MAX,
    ensures
        i < r.0 <= v@.len(),
        forall|k: int| i <= k < r.0 - 1 ==> v@[k] != '\n',
        v@[r.0 - 1] == '\n' || r.0 == v@.len(),
        r.1 == byte_len(v@.subrange(i as int, r.0 as int)),
{
    proof {
        lemma_byte_len_concat(v@.take(i as int), v@.skip(i as int));
        assert(v@.take(i as int) + v@.skip(i as int) =~= v@);
    }
    let mut j: usize = i;
    let mut bytes: usize = 0;
    loop
        invariant_except_break
            i <= j < v@.len(),
            forall|k: int| i <= k < j ==> v@[k] != '\n',
            bytes == byte_len(v@.subrange(i as int, j as int)),
            byte_len(v@.skip(i as int)) <= usize::MAX,
        ensures
            i < j <= v@.len(),
            forall|k: int| i <= k < j - 1 ==> v@[k] != '\n',
            v@[j - 1] == '\n' || j == v@.len(),
            bytes == byte_len(v@.subrange(i as int, j as int)),
        decreases v@.len() - j,
    {
        proof {
            assert(v@.subrange(i as int, j + 1).drop_last() =~= v@.subrange(i as int, j as int));
            let s = v@.skip(i as int);
            assert(s =~= v@.subrange(i as int, j + 1) + v@.skip(j + 1));
            lemma_byte_len_concat(v@.subrange(i as int, j + 1), v@.skip(j + 1));
        }
        assert(j < v.len());
        bytes = bytes + char_width(v[j]);
        j = j + 1;
        if v[j - 1] == '\n' || j == v.len() {
            break;
        }
    }
    (j, bytes)
}

/// The text of chunk `i` of `total`.
fn footer_text(i: usize, total: usize) -> (r: String)
    ensures
        r@ == footer(i as nat, total as nat),
{
    let mut f = "\n\n".to_owned();
    f.append("[");
    push_decimal(&mut f, i);
    f.append("/");
    push_decimal(&mut f, total);
    f.append("]");
    assert(f@ =~= footer(i as nat, total as nat));
    f
}

proof fn lemma_decimal_ascii(n: nat)
    ensures
        forall|k: int| 0 <= k < decimal(n).len() ==> (decimal(n)[k] as u32) < 0x80,
    decreases n,
{
    assert forall|d: nat| (digit(d) as u32) < 0x80 by {}
    if n >= 10 {
        lemma_decimal_ascii(n / 10);
        let a = decimal(n / 10);
        assert forall|k: int| 0 <= k < decimal(n).len() implies (decimal(n)[k] as u32) < 0x80 by {
            if k < a.len() {
                assert(decimal(n)[k] == a[k]);
            } else {
                assert(decimal(n)[k] == digit(n % 10));
            }
        }
    }
}

proof fn lemma_footer_ascii(i: nat, total: nat)
    ensures
        byte_len(footer(i, total)) == footer(i, total).len(),
{
    reveal_strlit("\n\n");
    reveal_strlit("[");
    reveal_strlit("/");
    reveal_strlit("]");
    lemma_decimal_ascii(i);
    lemma_decimal_ascii(total);
    let f = footer(i, total);
    assert(f =~= "\n\n"@ + "["@ + decimal(i) + "/"@ + decimal(total) + "]"@);
    assert forall|k: int| 0 <= k < f.len() implies (f[k] as u32) < 0x80 by {
        let a = "\n\n"@ + "["@ + decimal(i);
        let b = a + "/"@ + decimal(total);
        if k < 3 {
        } else if k < a.len() {
            assert(f[k] == decimal(i)[k - 3]);
        } else if k < a.len() + 1 {
        } else if k < b.len() {
            assert(f[k] == decimal(total)[k - a.len() - 1]);
        }
    }
    lemma_byte_len_ascii(f);
}

/// Splits `text` into chunks of at most `max_bytes` bytes: whole lines where
/// they fit, an overlong line cut at a character boundary, and, when there are
/// several chunks, a `[i/total]` footer on each. (The byte length of a `str`
/// always fits in `usize`.)
pub fn chunk_lines_with_footer(text: &str, max_bytes: usize) -> (r: Vec<String>)
    requires
        max_bytes > 0,
        byte_len(text@) <= usize::MAX,
    ensures
        views(r@) == chunks_of(text@, max_bytes as nat),
{
    let v = chars_of(text);
    let n = v.len();
    let ghost max = max_bytes as nat;
    let mut raw: Vec<String> = Vec::new();
    let mut current = String::new();
    let mut current_bytes: usize = 0;
    let mut i: usize = 0;
    assert(v@.skip(0) =~= v@);
    assert(views(raw@) =~= Seq::<Seq<char>>::empty());
    while i < n
        invariant
            n == v@.len(),
            v@ == text@,
            i <= n,
            byte_len(v@) <= usize::MAX,
            max == max_bytes as nat,
            current_bytes == byte_len(current@),
            current_bytes <= max_bytes,
            pack(split_lines(v@), max, Seq::empty(), Seq::empty()) == pack(
                split_lines(v@.skip(i as int)),
                max,
                views(raw@),
                current@,
            ),
        decreases n - i,
    {
        let (j, line_bytes) = line_end(&v, i);
        proof {
            lemma_split_lines_run(v@, i as int, j as int);
            let ls = split_lines(v@.skip(i as int));
            assert(ls[0] == v@.subrange(i as int, j as int));
            assert(ls.drop_first() =~= split_lines(v@.skip(j as int)));
        }
        let ghost before = views(raw@);
        let ghost old_cur = current@;
        let ghost ls = split_lines(v@.skip(i as int));
        let ghost rest = split_lines(v@.skip(j as int));
        if line_bytes > max_bytes {
            let ghost d = if current@.len() > 0 {
                before.push(current@)
            } else {
                before
            };
            if !current.as_str().is_empty() {
                raw.push(current);
                current = String::new();
                current_bytes = 0;
            }
            assert(views(raw@) =~= d);
            let line = string_of(&v, i, j);
            let lv = chars_of(line.as_str());
            let cut = truncated(&lv, max_bytes);
            raw.push(cut);
            assert(views(raw@) =~= d.push(truncate(v@.subrange(i as int, j as int), max)));
            assert(current@ =~= Seq::<char>::empty());
            assert(pack(ls, max, before, old_cur) == pack(rest, max, views(raw@), current@));
        } else if line_bytes > max_bytes - current_bytes {
            raw.push(current);
            assert(views(raw@) =~= before.push(current@));
            current = string_of(&v, i, j);
            current_bytes = line_bytes;
            assert(pack(ls, max, before, old_cur) == pack(rest, max, views(raw@), current@));
        } else {
            let line = string_of(&v, i, j);
            proof {
                lemma_byte_len_concat(current@, line@);
            }
            current.append(line.as_str());
            current_bytes = current_bytes + line_bytes;
            assert(pack(ls, max, before, old_cur) == pack(rest, max, views(raw@), current@));
        }
        i = j;
    }
    let ghost before = views(raw@);
    if !current.as_str().is_empty() {
        raw.push(current);
        assert(views(raw@) =~= before.push(current@));
    }
    assert(v@.skip(n as int) =~= Seq::<char>::empty());
    let total = raw.len();
    if total <= 1 {
        return raw;
    }
    let mut out: Vec<String> = Vec::new();
    let mut k: usize = 0;
    while k < total
        invariant
            total == raw@.len() > 1,
            k <= total,
            out@.len() == k,
            max == max_bytes as nat,
            forall|m: int|
                0 <= m < k ==> (#[trigger] out@[m])@ == with_footers(views(raw@), max)[m],
        decreases total - k,
    {
        let f = footer_text(k + 1, total);
        let flen = f.as_str().unicode_len();
        proof {
            lemma_footer_ascii((k + 1) as nat, total as nat);
        }
        let room = if max_bytes >= flen {
            max_bytes - flen
        } else {
            0
        };
        let cv = chars_of(raw[k].as_str());
        let mut chunk = truncated(&cv, room);
        chunk.append(f.as_str());
        assert(views(raw@)[k as int] == raw@[k as int]@);
        assert(chunk@ == with_footers(views(raw@), max)[k as int]);
        out.push(chunk);
        k = k + 1;
    }
    assert(views(out@) =~= with_footers(views(raw@), max));
    out
}

/// Every chunk of `pack` fits the budget.
proof fn lemma_pack_within(ls: Seq<Seq<char>>, max: nat, done: Seq<Seq<char>>, cur: Seq<char>)
    requires
        byte_len(cur) <= max,
        forall|k: int| 0 <= k < done.len() ==> byte_len(#[trigger] done[k]) <= max,
    ensures
        forall|k: int|
            0 <= k < pack(ls, max, done, cur).len() ==> byte_len(
                #[trigger] pack(ls, max, done, cur)[k],
            ) <= max,
    decreases ls.len(),
{
    if ls.len() > 0 {
        let l = ls[0];
        let rest = ls.drop_first();
        if byte_len(l) > max {
            let d = if cur.len() > 0 {
                done.push(cur)
            } else {
                done
            };
            lemma_fit_le(l, max);
            let d2 = d.push(truncate(l, max));
            assert forall|k: int| 0 <= k < d2.len() implies byte_len(#[trigger] d2[k]) <= max by {
                if k < done.len() {
                    assert(d2[k] == done[k]);
                }
            }
            assert(byte_len(Seq::<char>::empty()) == 0);
            lemma_pack_within(rest, max, d2, Seq::empty());
            assert(pack(ls, max, done, cur) == pack(rest, max, d2, Seq::empty()));
        } else if byte_len(cur) + byte_len(l) > max {
            let d2 = done.push(cur);
            assert forall|k: int| 0 <= k < d2.len() implies byte_len(#[trigger] d2[k]) <= max by {
                if k < done.len() {
                    assert(d2[k] == done[k]);
                }
            }
            lemma_pack_within(rest, max, d2, l);
            assert(pack(ls, max, done, cur) == pack(rest, max, d2, l));
        } else {
            lemma_byte_len_concat(cur, l);
            lemma_pack_within(rest, max, done, cur + l);
            assert(pack(ls, max, done, cur) == pack(rest, max, done, cur + l));
        }
    } else {
        if cur.len() > 0 {
            let d2 = done.push(cur);
            assert forall|k: int| 0 <= k < d2.len() implies byte_len(#[trigger] d2[k]) <= max by {
                if k < done.len() {
                    assert(d2[k] == done[k]);
                }
            }
        }
    }
}

/// Every chunk fits the budget, but for a chunk among several whose footer
/// alone is longer than the budget.
pub proof fn lemma_chunks_within_budget(text: Seq<char>, max: nat)
    requires
        max >= 1,
    ensures
        forall|i: int|
            0 <= i < chunks_of(text, max).len() && (chunks_of(text, max).len() == 1 || byte_len(
                footer((i + 1) as nat, chunks_of(text, max).len()),
            ) <= max) ==> byte_len(#[trigger] chunks_of(text, max)[i]) <= max,
{
    let raw = pack(split_lines(text), max, Seq::empty(), Seq::empty());
    assert(byte_len(Seq::<char>::empty()) == 0);
    lemma_pack_within(split_lines(text), max, Seq::empty(), Seq::empty());
    let c = chunks_of(text, max);
    assert forall|i: int|
        0 <= i < c.len() && (c.len() == 1 || byte_len(footer((i + 1) as nat, c.len())) <= max)
            implies byte_len(#[trigger] c[i]) <= max by {
        if raw.len() > 1 {
            let f = footer((i + 1) as nat, raw.len());
            let rm = room(max, (i + 1) as nat, raw.len());
            lemma_fit_le(raw[i], rm);
            lemma_byte_len_concat(truncate(raw[i], rm), f);
        }
    }
}

/// The lines of `s` are not empty and together make `s`.
proof fn lemma_split_lines_flatten(s: Seq<char>)
    ensures
        split_lines(s).flatten() == s,
        forall|k: int| 0 <= k < split_lines(s).len() ==> (#[trigger] split_lines(s)[k]).len() > 0,
    decreases s.len(),
{
    if s.len() > 0 {
        let rest = split_lines(s.drop_first());
        lemma_split_lines_flatten(s.drop_first());
        let ls = split_lines(s);
        if s[0] == '\n' || rest.len() == 0 {
            assert(ls.drop_first() =~= rest);
            assert(ls.flatten() =~= seq![s[0]] + rest.flatten());
            assert(s =~= seq![s[0]] + s.drop_first());
        } else {
            assert(ls.drop_first() =~= rest.drop_first());
            assert(rest.flatten() =~= rest[0] + rest.drop_first().flatten());
            assert(ls.flatten() =~= (seq![s[0]] + rest[0]) + rest.drop_first().flatten());
            assert(s =~= seq![s[0]] + s.drop_first());
            assert forall|k: int| 0 <= k < ls.len() implies (#[trigger] ls[k]).len() > 0 by {
                if k > 0 {
                    assert(ls[k] == rest[k]);
                }
            }
        }
    } else {
        assert(split_lines(s).flatten() =~= Seq::<char>::empty());
    }
}

/// Lines that fit the budget together all go into the chunk being filled.
proof fn lemma_pack_fits(ls: Seq<Seq<char>>, max: nat, done: Seq<Seq<char>>, cur: Seq<char>)
    requires
        forall|k: int| 0 <= k < ls.len() ==> (#[trigger] ls[k]).len() > 0,
        byte_len(cur) + byte_len(ls.flatten()) <= max,
    ensures
        pack(ls, max, done, cur) == if (cur + ls.flatten()).len() > 0 {
            done.push(cur + ls.flatten())
        } else {
            done
        },
    decreases ls.len(),
{
    if ls.len() == 0 {
        assert(cur + ls.flatten() =~= cur);
    } else {
        let l = ls[0];
        let rest = ls.drop_first();
        assert(ls.flatten() == l + rest.flatten());
        lemma_byte_len_concat(l, rest.flatten());
        lemma_byte_len_concat(cur, l);
        assert forall|k: int| 0 <= k < rest.len() implies (#[trigger] rest[k]).len() > 0 by {
            assert(rest[k] == ls[k + 1]);
        }
        lemma_pack_fits(rest, max, done, cur + l);
        assert(cur + l + rest.flatten() =~= cur + ls.flatten());
    }
}

/// A text that fits the budget is one chunk, unchanged and without footer;
/// an empty text gives no chunk.
pub proof fn lemma_single_chunk(text: Seq<char>, max: nat)
    requires
        byte_len(text) <= max,
    ensures
        text.len() > 0 ==> chunks_of(text, max) == seq![text],
        text.len() == 0 ==> chunks_of(text, max).len() == 0,
{
    lemma_split_lines_flatten(text);
    assert(byte_len(Seq::<char>::empty()) == 0);
    lemma_pack_fits(split_lines(text), max, Seq::empty(), Seq::empty());
    assert(Seq::<char>::empty() + text =~= text);
    assert(Seq::<Seq<char>>::empty().push(text) =~= seq![text]);
}

/// When there are several chunks, chunk `i` (counted from one) of `total`
/// ends with the label `[i/total]`.
pub proof fn lemma_chunk_labels(text: Seq<char>, max: nat)
    ensures
        chunks_of(text, max).len() > 1 ==> forall|i: int|
            0 <= i < chunks_of(text, max).len() ==> {
                let c = #[trigger] chunks_of(text, max)[i];
                let l = label((i + 1) as nat, chunks_of(text, max).len());
                c.len() >= l.len() && c.subrange(c.len() - l.len(), c.len() as int) == l
            },
{
    let cs = chunks_of(text, max);
    if cs.len() > 1 {
        assert forall|i: int| 0 <= i < cs.len() implies {
            let c = #[trigger] cs[i];
            let l = label((i + 1) as nat, cs.len());
            c.len() >= l.len() && c.subrange(c.len() - l.len(), c.len() as int) == l
        } by {
            let c = cs[i];
            let l = label((i + 1) as nat, cs.len());
            let raw = pack(split_lines(text), max, Seq::empty(), Seq::empty());
            let t = truncate(raw[i], room(max, (i + 1) as nat, raw.len()));
            assert(c == t + ("\n\n"@ + l));
            assert(c.subrange(c.len() - l.len(), c.len() as int) =~= l);
        }
    }
}

} // verus!
