use vstd::prelude::*;
use vstd::string::*;

verus! {

/// The position of the first `c` in `s`, or the length of `s` when there is none.
pub open spec fn first_index_of(s: Seq<char>, c: char) -> nat
    decreases s.len(),
{
    if s.len() == 0 {
        0
    } else if s[0] == c {
        0
    } else {
        1 + first_index_of(s.skip(1), c)
    }
}

/// The key of a `KEY=value` line: the text before the first `=`.
pub open spec fn line_key(line: Seq<char>) -> Seq<char> {
    line.take(first_index_of(line, '=') as int)
}

/// The value of a `KEY=value` line: the text after the first `=`, up to a second `=`.
pub open spec fn line_value(line: Seq<char>) -> Seq<char> {
    let rest = line.skip(first_index_of(line, '=') as int + 1);
    rest.take(first_index_of(rest, '=') as int)
}

/// The `(key, value)` pairs of the lines of `text`, up to the first line whose key is empty.
pub open spec fn env_pairs(text: Seq<char>) -> Seq<(Seq<char>, Seq<char>)>
    decreases text.len(),
{
    let i = first_index_of(text, '\n') as int;
    let line = text.take(i);
    if line_key(line).len() == 0 {
        Seq::empty()
    } else if i >= text.len() {
        seq![(line_key(line), line_value(line))]
    } else {
        seq![(line_key(line), line_value(line))] + env_pairs(text.skip(i + 1))
    }
}

/// Every line before the first one with an empty key holds an `=`.
pub open spec fn env_lines_ok(text: Seq<char>) -> bool
    decreases text.len(),
{
    let i = first_index_of(text, '\n') as int;
    let line = text.take(i);
    if line_key(line).len() == 0 {
        true
    } else {
        first_index_of(line, '=') < line.len() && (i >= text.len() || env_lines_ok(text.skip(i + 1)))
    }
}

proof fn lemma_first_index_of(s: Seq<char>, c: char, m: int)
    requires
        0 <= m <= s.len(),
        forall|j: int| 0 <= j < m ==> s[j] != c,
        m == s.len() || s[m] == c,
    ensures
        first_index_of(s, c) == m,
    decreases m,
{
    if m > 0 {
        lemma_first_index_of(s.skip(1), c, m - 1);
    }
}

/// The position of the first `c` in `text` from `from` on, before `to`, or `to`.
fn find_char(text: &str, c: char, from: usize, to: usize) -> (r: usize)
    requires
        from <= to <= text@.len(),
    ensures
        from <= r <= to,
        r - from == first_index_of(text@.subrange(from as int, to as int), c),
{
    let mut k = from;
    while k < to && text.get_char(k) != c
        invariant
            from <= k <= to,
            to <= text@.len(),
            forall|j: int| from <= j < k ==> text@[j] != c,
        decreases to - k,
    {
        k += 1;
    }
    let ghost s = text@.subrange(from as int, to as int);
    proof {
        assert forall|j: int| 0 <= j < k - from implies s[j] != c by {
            assert(s[j] == text@[from + j]);
        }
        if k < to {
            assert(s[k - from] == text@[k as int]);
        }
        lemma_first_index_of(s, c, k - from);
    }
    k
}

/// Reads `KEY=value` lines, one per line, up to the first line whose key is empty.
pub fn parse_env(text: &str) -> (r: Vec<(String, String)>)
    requires
        env_lines_ok(text@),
    ensures
        r@.len() == env_pairs(text@).len(),
        forall|i: int| 0 <= i < r@.len() ==> (#[trigger] r@[i]).0@ == env_pairs(text@)[i].0 && r@[i].1@ == env_pairs(text@)[i].1,
{
    let n = text.unicode_len();
    let mut pairs: Vec<(String, String)> = Vec::new();
    let mut pos: usize = 0;
    let ghost all = env_pairs(text@);
    assert(text@.skip(0) =~= text@);
    loop
        invariant
            n == text@.len(),
            pos <= n,
            env_lines_ok(text@.skip(pos as int)),
            all == env_pairs(text@),
            pairs@.len() + env_pairs(text@.skip(pos as int)).len() == all.len(),
            forall|i: int| 0 <= i < pairs@.len() ==> (#[trigger] pairs@[i]).0@ == all[i].0 && pairs@[i].1@ == all[i].1,
            forall|i: int| 0 <= i < env_pairs(text@.skip(pos as int)).len() ==> #[trigger] env_pairs(text@.skip(pos as int))[i] == all[pairs@.len() + i],
        decreases n - pos,
    {
        let ghost rest = text@.skip(pos as int);
        assert(rest =~= text@.subrange(pos as int, n as int));
        let end = find_char(text, '\n', pos, n);
        let ghost line = rest.take(end - pos);
        assert(line =~= text@.subrange(pos as int, end as int));
        let eq = find_char(text, '=', pos, end);
        if eq == pos {
            assert(line_key(line).len() == 0);
            return pairs;
        }
        assert(line_key(line).len() > 0);
        let key = text.substring_char(pos, eq).to_owned();
        assert(key@ =~= line_key(line));
        let ghost after = line.skip(eq - pos + 1);
        assert(after =~= text@.subrange(eq + 1, end as int));
        let vend = find_char(text, '=', eq + 1, end);
        let value = text.substring_char(eq + 1, vend).to_owned();
        assert(value@ =~= line_value(line));
        let ghost here = env_pairs(rest);
        let ghost done = pairs@.len();
        assert(here[0] == (line_key(line), line_value(line)));
        assert(all[done as int] == here[0]);
        pairs.push((key, value));
        if end >= n {
            assert(here =~= seq![(line_key(line), line_value(line))]);
            return pairs;
        }
        assert(text@.skip(end + 1) =~= rest.skip(end - pos + 1));
        assert(here =~= seq![(line_key(line), line_value(line))] + env_pairs(text@.skip(end + 1)));
        assert forall|i: int| 0 <= i < env_pairs(text@.skip(end + 1)).len()
            implies #[trigger] env_pairs(text@.skip(end + 1))[i] == all[pairs@.len() + i] by {
            assert(env_pairs(text@.skip(end + 1))[i] == here[i + 1]);
        }
        pos = end + 1;
    }
}

} // verus!
