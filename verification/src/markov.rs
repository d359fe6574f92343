//! Word-bigram chain: split a text into words, build a table mapping each
//! adjacent word pair to the words that follow it, and walk the table from a
//! random starting pair.
use vstd::prelude::*;
use crate::rng::random_below;

verus! {

/// A word sequence with every word taken as its character sequence.
pub open spec fn word_views(v: Seq<String>) -> Seq<Seq<char>> {
    v.map_values(|s: String| s@)
}

/// The text with any leading run of spaces removed.
pub open spec fn drop_leading_spaces(s: Seq<char>) -> Seq<char>
    decreases s.len(),
{
    if s.len() > 0 && s[0] == ' ' {
        drop_leading_spaces(s.drop_first())
    } else {
        s
    }
}

proof fn lemma_drop_leading_len(s: Seq<char>)
    ensures
        drop_leading_spaces(s).len() <= s.len(),
    decreases s.len(),
{
    if s.len() > 0 && s[0] == ' ' {
        lemma_drop_leading_len(s.drop_first());
    }
}

/// The pieces of the text between maximal runs of spaces, in order. A run
/// at either end contributes an empty piece there, and the empty text is a
/// single empty piece.
pub open spec fn split_spaces(s: Seq<char>) -> Seq<Seq<char>>
    decreases s.len(),
    via split_spaces_dec
{
    if s.len() == 0 {
        seq![Seq::<char>::empty()]
    } else if s[0] != ' ' {
        let rest = split_spaces(s.drop_first());
        rest.update(0, seq![s[0]].add(rest[0]))
    } else {
        seq![Seq::<char>::empty()].add(split_spaces(drop_leading_spaces(s.drop_first())))
    }
}

#[via_fn]
proof fn split_spaces_dec(s: Seq<char>) {
    if s.len() > 0 && s[0] == ' ' {
        lemma_drop_leading_len(s.drop_first());
    }
}

/// Relies on regex::Regex::split, with a pattern compiled by
/// regex::Regex::new matching one or more spaces: the pieces of the text
/// between maximal space runs, in order.
#[verifier::external_body]
fn split_words(w: &str) -> (r: Vec<String>)
    ensures
        word_views(r@) == split_spaces(w@),
{
    let re = regex::Regex::new(r" +").unwrap();
    re.split(w).map(|p| p.to_string()).collect()
}

/// Relies on rand::seq::SliceRandom::choose through rand::thread_rng: Some
/// of one of the slice's elements exactly when the slice is non-empty.
#[verifier::external_body]
fn choose_word(v: &Vec<String>) -> (r: Option<String>)
    ensures
        (r is Some) == (v@.len() > 0),
        r matches Some(w) ==> exists|k: int| 0 <= k < v@.len() && w@ == #[trigger] v@[k]@,
{
    rand::seq::SliceRandom::choose(v.as_slice(), &mut rand::thread_rng()).cloned()
}

/// Association of each word pair with the words that follow it, taking the
/// first `m` pair positions of the word sequence into account.
pub open spec fn table_after(ws: Seq<Seq<char>>, m: int) -> Map<
    (Seq<char>, Seq<char>),
    Seq<Seq<char>>,
>
    decreases m,
{
    if m <= 0 {
        Map::empty()
    } else {
        let prev = table_after(ws, m - 1);
        let k = (ws[m - 1], ws[m]);
        let w2 = ws[m + 1];
        prev.insert(
            k,
            if prev.contains_key(k) {
                prev[k].push(w2)
            } else {
                seq![w2]
            },
        )
    }
}

/// The bigram table of a word sequence: each adjacent pair maps to the
/// words that follow an occurrence of that pair, in order of occurrence.
pub open spec fn table_spec(ws: Seq<Seq<char>>) -> Map<(Seq<char>, Seq<char>), Seq<Seq<char>>> {
    table_after(ws, ws.len() - 2)
}

/// The map described by an association list, later entries winning.
pub open spec fn assoc_map(s: Seq<((Seq<char>, Seq<char>), Seq<Seq<char>>)>) -> Map<
    (Seq<char>, Seq<char>),
    Seq<Seq<char>>,
>
    decreases s.len(),
{
    if s.len() == 0 {
        Map::empty()
    } else {
        assoc_map(s.drop_last()).insert(s.last().0, s.last().1)
    }
}

proof fn lemma_assoc_absent(s: Seq<((Seq<char>, Seq<char>), Seq<Seq<char>>)>, k: (Seq<char>, Seq<char>))
    requires
        forall|i: int| 0 <= i < s.len() ==> (#[trigger] s[i]).0 != k,
    ensures
        !assoc_map(s).contains_key(k),
    decreases s.len(),
{
    if s.len() > 0 {
        lemma_assoc_absent(s.drop_last(), k);
    }
}

proof fn lemma_assoc_found(s: Seq<((Seq<char>, Seq<char>), Seq<Seq<char>>)>, j: int)
    requires
        0 <= j < s.len(),
        forall|i: int| j < i < s.len() ==> (#[trigger] s[i]).0 != s[j].0,
    ensures
        assoc_map(s).contains_key(s[j].0),
        assoc_map(s)[s[j].0] == s[j].1,
    decreases s.len(),
{
    if j < s.len() - 1 {
        lemma_assoc_found(s.drop_last(), j);
    }
}

proof fn lemma_assoc_update(
    s: Seq<((Seq<char>, Seq<char>), Seq<Seq<char>>)>,
    j: int,
    v: Seq<Seq<char>>,
)
    requires
        0 <= j < s.len(),
        forall|i1: int, i2: int|
            #![trigger s[i1], s[i2]]
            0 <= i1 < s.len() && 0 <= i2 < s.len() && i1 != i2 ==> s[i1].0 != s[i2].0,
    ensures
        assoc_map(s.update(j, (s[j].0, v))) == assoc_map(s).insert(s[j].0, v),
    decreases s.len(),
{
    let t = s.update(j, (s[j].0, v));
    if j == s.len() - 1 {
        assert(t.drop_last() =~= s.drop_last());
        assert(assoc_map(s).insert(s[j].0, v) =~= assoc_map(s.drop_last()).insert(s[j].0, v));
    } else {
        assert(t.drop_last() =~= s.drop_last().update(j, (s[j].0, v)));
        assert(s.drop_last()[j] == s[j]);
        lemma_assoc_update(s.drop_last(), j, v);
        assert(assoc_map(s.drop_last()).insert(s[j].0, v).insert(s.last().0, s.last().1)
            =~= assoc_map(s.drop_last()).insert(s.last().0, s.last().1).insert(s[j].0, v));
        assert(assoc_map(t) == assoc_map(t.drop_last()).insert(t.last().0, t.last().1));
    }
}

proof fn lemma_table_words(ws: Seq<Seq<char>>, m: int, k: (Seq<char>, Seq<char>), w: Seq<char>)
    requires
        m + 1 < ws.len(),
        table_after(ws, m).contains_key(k),
        table_after(ws, m)[k].contains(w),
    ensures
        ws.contains(w),
    decreases m,
{
    if m > 0 {
        let prev = table_after(ws, m - 1);
        let key = (ws[m - 1], ws[m]);
        let lst = table_after(ws, m)[k];
        if k == key {
            let i = choose|i: int| 0 <= i < lst.len() && lst[i] == w;
            if prev.contains_key(k) {
                if i == lst.len() - 1 {
                    assert(ws[m + 1] == w);
                } else {
                    assert(prev[k].contains(w));
                    lemma_table_words(ws, m - 1, k, w);
                }
            } else {
                assert(ws[m + 1] == w);
            }
        } else {
            lemma_table_words(ws, m - 1, k, w);
        }
    }
}

proof fn lemma_table_nonempty(ws: Seq<Seq<char>>, m: int, k: (Seq<char>, Seq<char>))
    requires
        table_after(ws, m).contains_key(k),
    ensures
        table_after(ws, m)[k].len() >= 1,
    decreases m,
{
    if m > 0 {
        if k != (ws[m - 1], ws[m]) {
            lemma_table_nonempty(ws, m - 1, k);
        }
    }
}

/// The walk that emitted `out` from seed position `i` has hit a dead end:
/// the word pair it tracks — the seed pair while fewer than two words are
/// out, then the pair of the second seed word and the first emission, then
/// always the last two emissions — has no follower in the table.
pub open spec fn chain_stopped(ws: Seq<Seq<char>>, i: int, out: Seq<Seq<char>>) -> bool {
    if out.len() >= 3 {
        !table_spec(ws).contains_key((out[out.len() - 2], out[out.len() - 1]))
    } else if out.len() == 2 {
        !table_spec(ws).contains_key((ws[i + 1], out[1]))
    } else {
        !table_spec(ws).contains_key((ws[i], ws[i + 1]))
    }
}

/// The bigram table, held as an association list with unique keys.
pub struct Table {
    entries: Vec<((String, String), Vec<String>)>,
}

impl Table {
    /// The entries with all strings taken as their character sequences.
    pub closed spec fn entry_views(&self) -> Seq<((Seq<char>, Seq<char>), Seq<Seq<char>>)> {
        self.entries@.map_values(
            |e: ((String, String), Vec<String>)| ((e.0.0@, e.0.1@), word_views(e.1@)),
        )
    }

    /// No word pair occurs as a key twice.
    pub open spec fn keys_unique(&self) -> bool {
        forall|i1: int, i2: int|
            #![trigger self.entry_views()[i1], self.entry_views()[i2]]
            0 <= i1 < self.entry_views().len() && 0 <= i2 < self.entry_views().len() && i1 != i2
                ==> self.entry_views()[i1].0 != self.entry_views()[i2].0
    }

    /// The table as a map from word pairs to follower lists.
    pub open spec fn model(&self) -> Map<(Seq<char>, Seq<char>), Seq<Seq<char>>> {
        assoc_map(self.entry_views())
    }

    /// Finds the entry whose key is (w0, w1), if any.
    fn find(&self, w0: &String, w1: &String) -> (r: Option<usize>)
        ensures
            match r {
                Option::Some(f) => f < self.entry_views().len() && self.entry_views()[f as int].0
                    == (w0@, w1@),
                Option::None => forall|i: int|
                    0 <= i < self.entry_views().len() ==> (#[trigger] self.entry_views()[i]).0 != (
                    w0@,
                    w1@,
                ),
            },
    {
        let mut j: usize = 0;
        while j < self.entries.len()
            invariant
                j <= self.entries.len(),
                forall|i: int|
                    0 <= i < j ==> (#[trigger] self.entry_views()[i]).0 != (w0@, w1@),
            decreases self.entries.len() - j,
        {
            if self.entries[j].0.0 == *w0 && self.entries[j].0.1 == *w1 {
                return Some(j);
            }
            j = j + 1;
        }
        None
    }

    /// Looks up the follower list of the pair (w0, w1).
    pub fn lookup(&self, w0: &String, w1: &String) -> (r: Option<&Vec<String>>)
        requires
            self.keys_unique(),
        ensures
            (r is Some) == self.model().contains_key((w0@, w1@)),
            r matches Some(l) ==> self.model()[(w0@, w1@)] == word_views(l@),
    {
        match self.find(w0, w1) {
            Option::Some(f) => {
                proof {
                    lemma_assoc_found(self.entry_views(), f as int);
                }
                Some(&self.entries[f].1)
            },
            Option::None => {
                proof {
                    lemma_assoc_absent(self.entry_views(), (w0@, w1@));
                }
                None
            },
        }
    }
}

/// Builds the bigram table of a word sequence: every adjacent pair of words
/// is mapped to the list of the words that follow it, in order.
pub fn build_table(words: Vec<String>) -> (t: Table)
    ensures
        t.keys_unique(),
        t.model() == table_spec(word_views(words@)),
{
    let ghost ws = word_views(words@);
    let mut t = Table { entries: Vec::new() };
    proof {
        assert(t.entry_views() =~= Seq::empty());
    }
    let mut i: usize = 0;
    while words.len() >= 3 && i < words.len() - 2
        invariant
            words@.len() == ws.len(),
            ws == word_views(words@),
            words@.len() >= 3 ==> i <= words@.len() - 2,
            words@.len() < 3 ==> i == 0,
            t.keys_unique(),
            t.model() == table_after(ws, i as int),
        decreases words@.len() - i,
    {
        let ghost old_t = t;
        let ghost k = (ws[i as int], ws[i as int + 1]);
        let w2 = words[i + 2].clone();
        match t.find(&words[i], &words[i + 1]) {
            Option::Some(f) => {
                proof {
                    lemma_assoc_found(t.entry_views(), f as int);
                    lemma_assoc_update(
                        t.entry_views(),
                        f as int,
                        t.entry_views()[f as int].1.push(ws[i as int + 2]),
                    );
                }
                t.entries[f].1.push(w2);
                proof {
                    assert(t.entry_views() =~~= old_t.entry_views().update(
                        f as int,
                        (k, old_t.entry_views()[f as int].1.push(ws[i as int + 2])),
                    ));
                    assert(t.model() == table_after(ws, i as int + 1));
                }
            },
            Option::None => {
                proof {
                    lemma_assoc_absent(t.entry_views(), k);
                }
                let mut lst: Vec<String> = Vec::new();
                lst.push(w2);
                t.entries.push(((words[i].clone(), words[i + 1].clone()), lst));
                proof {
                    assert(t.entry_views() =~~= old_t.entry_views().push(
                        (k, seq![ws[i as int + 2]]),
                    ));
                    assert(t.entry_views().drop_last() =~= old_t.entry_views());
                    assert(t.model() == table_after(ws, i as int + 1));
                }
            },
        }
        i = i + 1;
    }
    t
}

/// Walks the bigram table of the text from a random starting pair and
/// collects the emitted words, each of them a word of the text. Returns
/// `None` exactly when the text splits into fewer than four pieces. The
/// walk emits `length` words unless it hits a pair that nothing follows;
/// then it stops there, having emitted at least one word.
pub fn generate_words(contents: &str, length: u32) -> (r: Option<Vec<String>>)
    ensures
        (r is Some) == (split_spaces(contents@).len() >= 4),
        r matches Some(out) ==> out@.len() <= length && forall|j: int|
            0 <= j < out@.len() ==> split_spaces(contents@).contains(#[trigger] out@[j]@),
        r matches Some(out) ==> (length >= 1 ==> out@.len() >= 1),
        r matches Some(out) ==> exists|i: int|
            0 <= i && i + 4 <= split_spaces(contents@).len() && (out@.len() == 0 || out@[0]@ == (
            #[trigger] split_spaces(contents@)[i + 2])) && (out@.len() == length || chain_stopped(
                split_spaces(contents@),
                i,
                word_views(out@),
            )),
{
    let ghost ws = split_spaces(contents@);
    let words = split_words(contents);
    proof {
        assert(words@.len() == ws.len());
    }
    if words.len() < 4 {
        return None;
    }
    let i = random_below(words.len() - 3);
    let ghost i0 = i as int;
    let mut w0 = words[i].clone();
    let mut w1 = words[i + 1].clone();
    let mut w2 = words[i + 2].clone();
    proof {
        assert(ws[i0] == w0@ && ws[i0 + 1] == w1@ && ws[i0 + 2] == w2@);
        assert(ws.contains(w2@));
    }
    let table = build_table(words);
    let mut out: Vec<String> = Vec::new();
    let mut c: u32 = 0;
    while c < length
        invariant
            out@.len() == c,
            c <= length,
            table.keys_unique(),
            table.model() == table_spec(ws),
            ws == split_spaces(contents@),
            ws.len() >= 4,
            0 <= i0 && i0 + 4 <= ws.len(),
            ws.contains(w2@),
            c == 0 ==> w0@ == ws[i0] && w1@ == ws[i0 + 1] && w2@ == ws[i0 + 2],
            c >= 1 ==> w1@ == w2@ && out@[0]@ == ws[i0 + 2],
            c == 1 ==> w0@ == ws[i0 + 1],
            c >= 2 ==> w0@ == out@[c - 1]@,
            forall|j: int| 0 <= j < out@.len() ==> ws.contains(#[trigger] out@[j]@),
        decreases length - c,
    {
        out.push(w2.clone());
        match table.lookup(&w0, &w1) {
            Option::None => {
                proof {
                    assert(!table_spec(ws).contains_key((w0@, w1@)));
                    assert(chain_stopped(ws, i0, word_views(out@)));
                }
                return Some(out);
            },
            Option::Some(lst) => {
                proof {
                    lemma_table_nonempty(ws, ws.len() - 2, (w0@, w1@));
                    assert(word_views(lst@).len() >= 1);
                }
                let picked = choose_word(lst);
                let w = picked.unwrap();
                proof {
                    let k = choose|k: int| 0 <= k < lst@.len() && w@ == lst@[k]@;
                    assert(word_views(lst@)[k] == w@);
                    assert(table.model()[(w0@, w1@)].contains(w@));
                    lemma_table_words(ws, ws.len() - 2, (w0@, w1@), w@);
                }
                w2 = w;
                w0 = w1;
                w1 = w2.clone();
            },
        }
        c = c + 1;
    }
    Some(out)
}

} // verus!
