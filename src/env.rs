//! The environment file: `KEY=VALUE` lines read into an ordered mapping.
use crate::text::{
    blank, find_char, find_first, is_blank, lemma_find_first_absent, lemma_find_first_bounds,
    lemma_find_first_extend, lemma_split_on_append, lemma_split_on_len, slice_string, split_chars,
    split_on,
};
use crate::keyed::{
    insert_entry, key_index, keys_distinct, lemma_insert_keeps_distinct, lemma_key_index_bounds,
    lemma_key_index_found, lookup,
};
use vstd::prelude::*;

verus! {

/// How one line of an environment file reads.
pub enum EnvLine {
    Skip,
    Pair(Seq<char>, Seq<char>),
    Malformed,
}

pub open spec fn env_line(line: Seq<char>) -> EnvLine {
    if is_blank(line) || line[0] == '#' {
        EnvLine::Skip
    } else if find_first(line, '=') <= 0 {
        EnvLine::Malformed
    } else {
        let k = find_first(line, '=');
        EnvLine::Pair(line.subrange(0, k), line.subrange(k + 1, line.len() as int))
    }
}

/// The entries that a sequence of lines gives, or the 1-based number of the
/// first malformed line.
pub open spec fn parse_env_lines(ls: Seq<Seq<char>>) -> Result<Seq<(Seq<char>, Seq<char>)>, nat>
    decreases ls.len(),
{
    if ls.len() == 0 {
        Ok(Seq::empty())
    } else {
        match parse_env_lines(ls.drop_last()) {
            Err(n) => Err(n),
            Ok(e) => match env_line(ls.last()) {
                EnvLine::Skip => Ok(e),
                EnvLine::Pair(k, v) => Ok(insert_entry(e, k, v)),
                EnvLine::Malformed => Err(ls.len()),
            },
        }
    }
}

/// What an environment file's text reads as.
pub open spec fn parse_env_text(text: Seq<char>) -> Result<Seq<(Seq<char>, Seq<char>)>, nat> {
    parse_env_lines(split_on(text, '\n'))
}

/// One `KEY=VALUE` line, without its line break.
pub open spec fn entry_line(p: (Seq<char>, Seq<char>)) -> Seq<char> {
    p.0 + seq!['='] + p.1
}

/// The text of `e`, one `KEY=VALUE` line each, every line ending in a break.
pub open spec fn env_text(e: Seq<(Seq<char>, Seq<char>)>) -> Seq<char>
    decreases e.len(),
{
    if e.len() == 0 {
        Seq::empty()
    } else {
        env_text(e.drop_last()) + entry_line(e.last()) + seq!['\n']
    }
}

/// An entry that reads back as itself from its own line.
pub open spec fn writable_entry(p: (Seq<char>, Seq<char>)) -> bool {
    &&& p.0.len() > 0
    &&& p.0[0] != '#'
    &&& !p.0.contains('=')
    &&& !p.0.contains('\n')
    &&& !p.1.contains('\n')
}

/// An error in an environment file: the 1-based number of a line that is not
/// blank, not a comment and not `KEY=VALUE` with a non-empty key.
#[derive(Debug, Clone, Copy, PartialEq, Eq, Structural)]
pub struct EnvError {
    pub line: usize,
}

/// An ordered mapping from names to values.
pub struct Env {
    entries: Vec<(String, String)>,
}

impl View for Env {
    type V = Seq<(Seq<char>, Seq<char>)>;

    closed spec fn view(&self) -> Seq<(Seq<char>, Seq<char>)> {
        self.entries@.map_values(|p: (String, String)| (p.0@, p.1@))
    }
}

proof fn lemma_parse_err_persists(ls: Seq<Seq<char>>, j: int, n: nat)
    requires
        0 <= j <= ls.len(),
        parse_env_lines(ls.subrange(0, j)) == Err::<Seq<(Seq<char>, Seq<char>)>, nat>(n),
    ensures
        parse_env_lines(ls) == Err::<Seq<(Seq<char>, Seq<char>)>, nat>(n),
    decreases ls.len(),
{
    if j < ls.len() {
        assert(ls.drop_last().subrange(0, j) =~= ls.subrange(0, j));
        lemma_parse_err_persists(ls.drop_last(), j, n);
    } else {
        assert(ls.subrange(0, j) =~= ls);
    }
}

impl Env {
    proof fn lemma_view(&self)
        ensures
            self@.len() == self.entries@.len(),
            forall|i: int|
                0 <= i < self@.len() ==> #[trigger] self@[i] == (
                    self.entries@[i].0@,
                    self.entries@[i].1@,
                ),
    {
    }

    /// The mapping holds each key once.
    pub open spec fn wf(&self) -> bool {
        keys_distinct(self@)
    }

    /// An empty mapping.
    pub fn new() -> (r: Env)
        ensures
            r@ == Seq::<(Seq<char>, Seq<char>)>::empty(),
            r.wf(),
    {
        let r = Env { entries: Vec::new() };
        assert(r@ =~= Seq::<(Seq<char>, Seq<char>)>::empty());
        r
    }

    /// A copy of the mapping.
    pub fn clone_env(&self) -> (r: Env)
        ensures
            r@ == self@,
    {
        let mut entries: Vec<(String, String)> = Vec::new();
        let mut i: usize = 0;
        while i < self.entries.len()
            invariant
                i <= self.entries@.len(),
                entries@.len() == i,
                forall|j: int|
                    0 <= j < i ==> (#[trigger] entries@[j]).0@ == self.entries@[j].0@
                        && entries@[j].1@ == self.entries@[j].1@,
            decreases self.entries@.len() - i,
        {
            entries.push((self.entries[i].0.clone(), self.entries[i].1.clone()));
            i = i + 1;
        }
        let r = Env { entries };
        proof {
            r.lemma_view();
            self.lemma_view();
            assert(r@ =~= self@);
        }
        r
    }

    /// The number of entries.
    pub fn len(&self) -> (r: usize)
        ensures
            r == self@.len(),
    {
        self.entries.len()
    }

    /// The entry at `i`, in order.
    pub fn entry(&self, i: usize) -> (r: (&String, &String))
        requires
            i < self@.len(),
        ensures
            r.0@ == self@[i as int].0,
            r.1@ == self@[i as int].1,
    {
        (&self.entries[i].0, &self.entries[i].1)
    }

    fn position(&self, key: &String) -> (r: Option<usize>)
        ensures
            match r {
                Some(i) => key_index(self@, key@) == i,
                None => key_index(self@, key@) == -1,
            },
    {
        let mut i: usize = 0;
        proof {
            self.lemma_view();
        }
        while i < self.entries.len()
            invariant
                i <= self@.len(),
                self@.len() == self.entries@.len(),
                forall|j: int|
                    0 <= j < self@.len() ==> #[trigger] self@[j] == (
                        self.entries@[j].0@,
                        self.entries@[j].1@,
                    ),
                key_index(self@.subrange(0, i as int), key@) == -1,
            decreases self@.len() - i,
        {
            let ghost pre = self@.subrange(0, i as int);
            proof {
                assert(self@.subrange(0, i + 1).drop_last() =~= pre);
            }
            if self.entries[i].0 == *key {
                proof {
                    lemma_key_index_found(self@, i as int, key@);
                }
                return Some(i);
            }
            i = i + 1;
        }
        proof {
            assert(self@.subrange(0, i as int) =~= self@);
        }
        None
    }

    /// The value bound to `key`.
    pub fn get(&self, key: &str) -> (r: Option<&String>)
        ensures
            match r {
                Some(v) => lookup(self@, key@) == Some(v@),
                None => lookup(self@, key@).is_none(),
            },
    {
        proof {
            self.lemma_view();
            lemma_key_index_bounds(self@, key@);
        }
        let k = String::from_str(key);
        match self.position(&k) {
            Some(i) => Some(&self.entries[i].1),
            None => None,
        }
    }

    /// Binds `key` to `value`, in place of any earlier value.
    pub fn insert(&mut self, key: String, value: String)
        requires
            old(self).wf(),
        ensures
            final(self)@ == insert_entry(old(self)@, key@, value@),
            final(self).wf(),
    {
        proof {
            lemma_insert_keeps_distinct(self@, key@, value@);
            self.lemma_view();
            lemma_key_index_bounds(self@, key@);
        }
        let ghost k = key@;
        let ghost v = value@;
        match self.position(&key) {
            Some(i) => {
                self.entries.set(i, (key, value));
                proof {
                    self.lemma_view();
                    assert(self@ =~= insert_entry(old(self)@, k, v));
                }
            },
            None => {
                self.entries.push((key, value));
                proof {
                    self.lemma_view();
                    assert(self@ =~= insert_entry(old(self)@, k, v));
                }
            },
        }
    }

    /// Reads the text of an environment file. Blank lines and lines that
    /// start with `#` are skipped; every other line is `KEY=VALUE`, split at
    /// its first `=`, with nothing trimmed. A later line for a key replaces
    /// the earlier value.
    pub fn parse(text: &str) -> (r: Result<Env, EnvError>)
        ensures
            match r {
                Ok(e) => e.wf() && parse_env_text(text@) == Ok::<_, nat>(e@),
                Err(err) => parse_env_text(text@) == Err::<Seq<(Seq<char>, Seq<char>)>, nat>(
                    err.line as nat,
                ),
            },
    {
        let lines = split_chars(text, '\n');
        let ghost ls = split_on(text@, '\n');
        let mut env = Env::new();
        let mut i: usize = 0;
        proof {
            assert(ls.subrange(0, 0) =~= Seq::<Seq<char>>::empty());
        }
        while i < lines.len()
            invariant
                ls == split_on(text@, '\n'),
                lines@.len() == ls.len(),
                forall|j: int| 0 <= j < lines@.len() ==> #[trigger] lines@[j]@ == ls[j],
                i <= lines@.len(),
                env.wf(),
                parse_env_lines(ls.subrange(0, i as int)) == Ok::<_, nat>(env@),
            decreases lines@.len() - i,
        {
            let line = lines[i].as_str();
            let ghost pre = ls.subrange(0, i as int);
            proof {
                assert(ls.subrange(0, i + 1).drop_last() =~= pre);
                assert(ls.subrange(0, i + 1).last() == line@);
            }
            if blank(line) {
            } else if line.get_char(0) == '#' {
            } else {
                match find_char(line, '=') {
                    Some(k) if k > 0 => {
                        let n = line.unicode_len();
                        proof {
                            lemma_find_first_bounds(line@, '=');
                        }
                        let key = slice_string(line, 0, k);
                        let value = slice_string(line, k + 1, n);
                        env.insert(key, value);
                    },
                    _ => {
                        proof {
                            assert(env_line(line@) == EnvLine::Malformed);
                            assert(parse_env_lines(ls.subrange(0, i + 1)) == Err::<
                                Seq<(Seq<char>, Seq<char>)>,
                                nat,
                            >((i + 1) as nat));
                            lemma_parse_err_persists(ls, i + 1, (i + 1) as nat);
                        }
                        return Err(EnvError { line: i + 1 });
                    },
                }
            }
            i = i + 1;
        }
        proof {
            assert(ls.subrange(0, i as int) =~= ls);
        }
        Ok(env)
    }

    /// The text of the mapping, one `KEY=VALUE` line per entry, each line
    /// ending in a line break.
    pub fn to_text(&self) -> (r: String)
        ensures
            r@ == env_text(self@),
    {
        let mut out = String::new();
        let mut i: usize = 0;
        proof {
            reveal_strlit("=");
            reveal_strlit("\n");
            assert(self@.subrange(0, 0) =~= Seq::<(Seq<char>, Seq<char>)>::empty());
            assert(out@ =~= Seq::<char>::empty());
        }
        while i < self.entries.len()
            invariant
                i <= self@.len(),
                out@ == env_text(self@.subrange(0, i as int)),
                "="@ == seq!['='],
                "\n"@ == seq!['\n'],
            decreases self@.len() - i,
        {
            let ghost before = out@;
            out.append(self.entries[i].0.as_str());
            out.append("=");
            out.append(self.entries[i].1.as_str());
            out.append("\n");
            proof {
                let sub = self@.subrange(0, i + 1);
                assert(sub.drop_last() =~= self@.subrange(0, i as int));
                assert(sub.last() == self@[i as int]);
                assert(out@ =~= env_text(sub));
            }
            i = i + 1;
        }
        proof {
            assert(self@.subrange(0, i as int) =~= self@);
        }
        out
    }
}

proof fn lemma_entry_line_reads_back(p: (Seq<char>, Seq<char>))
    requires
        writable_entry(p),
    ensures
        env_line(entry_line(p)) == EnvLine::Pair(p.0, p.1),
{
    let line = entry_line(p);
    let k = p.0;
    lemma_find_first_absent(k, '=');
    let ke = k.push('=');
    assert(ke.drop_last() =~= k);
    assert(find_first(ke, '=') == k.len());
    assert(line =~= ke + p.1);
    lemma_find_first_extend(ke, p.1, '=');
    assert(line[0] == k[0]);
    assert(!is_blank(line)) by {
        crate::text::lemma_trim_bounds(line);
        lemma_lead_space_stops(line, k.len() as int);
    }
    assert(line.subrange(0, k.len() as int) =~= k);
    assert(line.subrange(k.len() + 1 as int, line.len() as int) =~= p.1);
}

proof fn lemma_lead_space_stops(s: Seq<char>, j: int)
    requires
        0 <= j < s.len(),
        !crate::text::is_space(s[j]),
    ensures
        crate::text::lead_space(s) <= j,
    decreases s.len(),
{
    crate::text::lemma_trim_bounds(s);
    if j < s.len() - 1 {
        lemma_lead_space_stops(s.drop_last(), j);
    } else {
        crate::text::lemma_trim_bounds(s.drop_last());
    }
}

proof fn lemma_env_text_lines(e: Seq<(Seq<char>, Seq<char>)>)
    requires
        forall|i: int| 0 <= i < e.len() ==> writable_entry(#[trigger] e[i]),
    ensures
        split_on(env_text(e), '\n') == e.map_values(|p: (Seq<char>, Seq<char>)| entry_line(p)).push(
            Seq::empty(),
        ),
    decreases e.len(),
{
    if e.len() == 0 {
        assert(split_on(env_text(e), '\n') =~= seq![Seq::<char>::empty()]);
        assert(e.map_values(|p: (Seq<char>, Seq<char>)| entry_line(p)).push(Seq::empty())
            =~= seq![Seq::<char>::empty()]);
    } else {
        let e0 = e.drop_last();
        assert forall|i: int| 0 <= i < e0.len() implies writable_entry(#[trigger] e0[i]) by {
            assert(e0[i] == e[i]);
        }
        lemma_env_text_lines(e0);
        let p = e.last();
        assert(writable_entry(e[e.len() - 1]));
        let line = entry_line(p);
        assert(!line.contains('\n')) by {
            if line.contains('\n') {
                let i = choose|i: int| 0 <= i < line.len() && line[i] == '\n';
                if i < p.0.len() {
                    assert(p.0[i] == '\n');
                } else if i > p.0.len() {
                    assert(p.1[i - p.0.len() - 1] == '\n');
                }
            }
        }
        let t0 = env_text(e0);
        lemma_split_on_append(t0, line, '\n');
        let with_line = t0 + line;
        let full = env_text(e);
        assert(full =~= with_line.push('\n'));
        assert(full.drop_last() =~= with_line);
        lemma_split_on_len(with_line, '\n');
        let lines0 = e0.map_values(|p: (Seq<char>, Seq<char>)| entry_line(p));
        assert(Seq::<char>::empty() + line =~= line);
        assert(split_on(with_line, '\n') =~= lines0.push(line));
        assert(e.map_values(|p: (Seq<char>, Seq<char>)| entry_line(p)) =~= lines0.push(line));
    }
}

proof fn lemma_parse_entry_lines(e: Seq<(Seq<char>, Seq<char>)>)
    requires
        keys_distinct(e),
        forall|i: int| 0 <= i < e.len() ==> writable_entry(#[trigger] e[i]),
    ensures
        parse_env_lines(e.map_values(|p: (Seq<char>, Seq<char>)| entry_line(p))) == Ok::<_, nat>(
            e,
        ),
    decreases e.len(),
{
    let ls = e.map_values(|p: (Seq<char>, Seq<char>)| entry_line(p));
    if e.len() == 0 {
        assert(ls =~= Seq::<Seq<char>>::empty());
        assert(e =~= Seq::<(Seq<char>, Seq<char>)>::empty());
    } else {
        let e0 = e.drop_last();
        assert forall|i: int| 0 <= i < e0.len() implies writable_entry(#[trigger] e0[i]) by {
            assert(e0[i] == e[i]);
        }
        assert forall|i: int, j: int| 0 <= i < j < e0.len() implies #[trigger] e0[i].0
            != #[trigger] e0[j].0 by {
            assert(e0[i] == e[i]);
            assert(e0[j] == e[j]);
        }
        lemma_parse_entry_lines(e0);
        assert(ls.drop_last() =~= e0.map_values(|p: (Seq<char>, Seq<char>)| entry_line(p)));
        let p = e.last();
        assert(writable_entry(e[e.len() - 1]));
        lemma_entry_line_reads_back(p);
        lemma_key_index_bounds(e0, p.0);
        if key_index(e0, p.0) >= 0 {
            let j = key_index(e0, p.0);
            assert(e[j].0 == e[e.len() - 1].0);
        }
        assert(e0.push(p) =~= e);
    }
}

/// Writing a mapping as `KEY=VALUE` lines and reading the text back gives the
/// same mapping, for every mapping whose keys are distinct, non-empty, do not
/// start with `#` and hold no `=` or line break, and whose values hold no line
/// break.
pub proof fn lemma_env_round_trip(e: Seq<(Seq<char>, Seq<char>)>)
    requires
        keys_distinct(e),
        forall|i: int| 0 <= i < e.len() ==> writable_entry(#[trigger] e[i]),
    ensures
        parse_env_text(env_text(e)) == Ok::<_, nat>(e),
{
    lemma_env_text_lines(e);
    lemma_parse_entry_lines(e);
    let ls = e.map_values(|p: (Seq<char>, Seq<char>)| entry_line(p));
    let all = ls.push(Seq::<char>::empty());
    assert(all.drop_last() =~= ls);
    assert(is_blank(Seq::<char>::empty()));
}

} // verus!
