//! The Procfile: named process types with their commands and replica counts,
//! and the formation string that sets those counts.
use crate::keyed::{
    insert_entry, key_index, keys_distinct, lemma_insert_keeps_distinct, lemma_key_index_bounds,
    lemma_key_index_found,
};
use crate::num::{decimal, decimal_len, lemma_decimal_len, lemma_decimal_value, parse_usize, unsigned_value, usize_value};
use crate::text::{
    blank, find_char, find_first, is_blank, lemma_find_first_absent, lemma_find_first_bounds,
    lemma_find_first_extend, lemma_split_on_append, slice_string, split_chars, split_on, trim,
    trimmed,
};
use vstd::prelude::*;

verus! {

/// What a Procfile entry holds: its command and how many replicas run.
pub type EntryModel = (Seq<char>, usize);

pub open spec fn is_name_char(c: char) -> bool {
    ('a' <= c && c <= 'z') || ('A' <= c && c <= 'Z') || ('0' <= c && c <= '9') || c == '_' || c
        == '-'
}

/// A process type's name: one or more of `A-Z a-z 0-9 _ -`.
pub open spec fn valid_name(s: Seq<char>) -> bool {
    s.len() > 0 && forall|i: int| 0 <= i < s.len() ==> is_name_char(#[trigger] s[i])
}

/// How one line of a Procfile reads.
pub enum ProcLine {
    Skip,
    Entry(Seq<char>, Seq<char>),
    Malformed,
}

pub open spec fn procfile_line(line: Seq<char>) -> ProcLine {
    if is_blank(line) || line[0] == '#' {
        ProcLine::Skip
    } else {
        let k = find_first(line, ':');
        if k < 0 || !valid_name(line.subrange(0, k)) {
            ProcLine::Malformed
        } else {
            ProcLine::Entry(line.subrange(0, k), trim(line.subrange(k + 1, line.len() as int)))
        }
    }
}

/// The entries that a sequence of lines gives, or the 1-based number of the
/// first malformed line. A later entry of a name replaces the earlier one.
pub open spec fn parse_procfile_lines(ls: Seq<Seq<char>>) -> Result<Seq<(Seq<char>, EntryModel)>, nat>
    decreases ls.len(),
{
    if ls.len() == 0 {
        Ok(Seq::empty())
    } else {
        match parse_procfile_lines(ls.drop_last()) {
            Err(n) => Err(n),
            Ok(e) => match procfile_line(ls.last()) {
                ProcLine::Skip => Ok(e),
                ProcLine::Entry(name, cmd) => Ok(insert_entry(e, name, (cmd, 1usize))),
                ProcLine::Malformed => Err(ls.len()),
            },
        }
    }
}

pub open spec fn parse_procfile_text(text: Seq<char>) -> Result<Seq<(Seq<char>, EntryModel)>, nat> {
    parse_procfile_lines(split_on(text, '\n'))
}

/// One `NAME=UINT` item of a formation.
pub open spec fn formation_item(s: Seq<char>) -> Option<(Seq<char>, usize)> {
    let k = find_first(s, '=');
    if k < 0 || !valid_name(s.subrange(0, k)) {
        None
    } else {
        let v = s.subrange(k + 1, s.len() as int);
        if v.len() > 0 && v[0] != '+' && usize_value(v).is_some() {
            Some((s.subrange(0, k), usize_value(v).unwrap()))
        } else {
            None
        }
    }
}

pub open spec fn formation_items(ps: Seq<Seq<char>>) -> Option<Seq<(Seq<char>, usize)>>
    decreases ps.len(),
{
    if ps.len() == 0 {
        Some(Seq::empty())
    } else {
        match formation_items(ps.drop_last()) {
            None => None,
            Some(items) => match formation_item(ps.last()) {
                None => None,
                Some(it) => Some(items.push(it)),
            },
        }
    }
}

/// The items of a formation string `NAME=UINT(,NAME=UINT)*`; `None` when it
/// is empty or malformed.
pub open spec fn parse_formation(f: Seq<char>) -> Option<Seq<(Seq<char>, usize)>> {
    formation_items(split_on(f, ','))
}

/// The count of the last item named `name`.
pub open spec fn named_count(items: Seq<(Seq<char>, usize)>, name: Seq<char>) -> Option<usize>
    decreases items.len(),
{
    if items.len() == 0 {
        None
    } else if items.last().0 == name {
        Some(items.last().1)
    } else {
        named_count(items.drop_last(), name)
    }
}

pub open spec fn all_name() -> Seq<char> {
    seq!['a', 'l', 'l']
}

/// The replica count of `name` after the items: its own item if there is
/// one, else the `all` item if there is one, else `current`.
pub open spec fn formation_count(items: Seq<(Seq<char>, usize)>, name: Seq<char>, current: usize) -> usize {
    match named_count(items, name) {
        Some(m) => m,
        None => match named_count(items, all_name()) {
            Some(n) => n,
            None => current,
        },
    }
}

pub open spec fn apply_items(e: Seq<(Seq<char>, EntryModel)>, items: Seq<(Seq<char>, usize)>) -> Seq<
    (Seq<char>, EntryModel),
> {
    Seq::new(
        e.len(),
        |i: int| (e[i].0, (e[i].1.0, formation_count(items, e[i].0, e[i].1.1))),
    )
}

/// The entries after a formation string: unchanged where it is empty or
/// malformed.
pub open spec fn with_formation(e: Seq<(Seq<char>, EntryModel)>, f: Seq<char>) -> Seq<
    (Seq<char>, EntryModel),
> {
    match parse_formation(f) {
        Some(items) => apply_items(e, items),
        None => e,
    }
}

/// The number of replicas over all entries.
pub open spec fn total_concurrency(e: Seq<(Seq<char>, EntryModel)>) -> nat
    decreases e.len(),
{
    if e.len() == 0 {
        0
    } else {
        total_concurrency(e.drop_last()) + e.last().1.1 as nat
    }
}

/// The width of the widest display name `name.N` over all replicas.
pub open spec fn padding_of(e: Seq<(Seq<char>, EntryModel)>) -> nat
    decreases e.len(),
{
    if e.len() == 0 {
        0
    } else {
        let p = padding_of(e.drop_last());
        let c = e.last().1.1;
        let w: nat = e.last().0.len() + 1 + decimal(c as nat).len();
        if c > 0 && w > p {
            w
        } else {
            p
        }
    }
}

/// An error in a Procfile: the 1-based number of a line that is not blank,
/// not a comment and not `name: command`.
#[derive(Debug, Clone, Copy, PartialEq, Eq, Structural)]
pub struct ProcfileError {
    pub line: usize,
}

/// One process type: its shell command and its replica count.
pub struct ProcfileEntry {
    pub command: String,
    pub concurrency: usize,
}

/// The process types of a Procfile, in a fixed order, each name once.
pub struct Procfile {
    data: Vec<(String, ProcfileEntry)>,
}

impl View for Procfile {
    type V = Seq<(Seq<char>, EntryModel)>;

    closed spec fn view(&self) -> Seq<(Seq<char>, EntryModel)> {
        self.data@.map_values(
            |p: (String, ProcfileEntry)| (p.0@, (p.1.command@, p.1.concurrency)),
        )
    }
}

fn valid_name_exec(s: &str) -> (r: bool)
    ensures
        r == valid_name(s@),
{
    let n = s.unicode_len();
    if n == 0 {
        return false;
    }
    let mut i: usize = 0;
    while i < n
        invariant
            n == s@.len(),
            i <= n,
            forall|j: int| 0 <= j < i ==> is_name_char(#[trigger] s@[j]),
        decreases n - i,
    {
        let c = s.get_char(i);
        if !(('a' <= c && c <= 'z') || ('A' <= c && c <= 'Z') || ('0' <= c && c <= '9') || c
            == '_' || c == '-') {
            return false;
        }
        i = i + 1;
    }
    true
}

fn parse_formation_exec(f: &str) -> (r: Option<Vec<(String, usize)>>)
    ensures
        match r {
            Some(v) => parse_formation(f@) == Some(v@.map_values(|p: (String, usize)| (p.0@, p.1))),
            None => parse_formation(f@).is_none(),
        },
{
    let parts = split_chars(f, ',');
    let ghost ps = split_on(f@, ',');
    let mut items: Vec<(String, usize)> = Vec::new();
    let mut i: usize = 0;
    proof {
        assert(ps.subrange(0, 0) =~= Seq::<Seq<char>>::empty());
        assert(items@.map_values(|p: (String, usize)| (p.0@, p.1)) =~= Seq::<(Seq<char>, usize)>::empty());
    }
    while i < parts.len()
        invariant
            ps == split_on(f@, ','),
            parts@.len() == ps.len(),
            forall|j: int| 0 <= j < parts@.len() ==> #[trigger] parts@[j]@ == ps[j],
            i <= parts@.len(),
            formation_items(ps.subrange(0, i as int)) == Some(
                items@.map_values(|p: (String, usize)| (p.0@, p.1)),
            ),
        decreases parts@.len() - i,
    {
        let part = parts[i].as_str();
        proof {
            assert(ps.subrange(0, i + 1).drop_last() =~= ps.subrange(0, i as int));
            assert(ps.subrange(0, i + 1).last() == part@);
        }
        let n = part.unicode_len();
        let item = match find_char(part, '=') {
            None => None,
            Some(k) => {
                proof {
                    lemma_find_first_bounds(part@, '=');
                }
                let name = slice_string(part, 0, k);
                if !valid_name_exec(name.as_str()) {
                    None
                } else {
                    let value = slice_string(part, k + 1, n);
                    if value.as_str().unicode_len() == 0 || value.as_str().get_char(0) == '+' {
                        None
                    } else {
                        match parse_usize(value.as_str()) {
                            Some(v) => Some((name, v)),
                            None => None,
                        }
                    }
                }
            },
        };
        match item {
            None => {
                proof {
                    assert(formation_item(part@).is_none());
                    lemma_formation_none_persists(ps, i + 1);
                }
                return None;
            },
            Some(it) => {
                proof {
                    assert(formation_item(part@) == Some((it.0@, it.1)));
                }
                items.push(it);
                proof {
                    assert(items@.map_values(|p: (String, usize)| (p.0@, p.1)) =~= formation_items(
                        ps.subrange(0, i + 1),
                    ).unwrap());
                }
            },
        }
        i = i + 1;
    }
    proof {
        assert(ps.subrange(0, i as int) =~= ps);
    }
    Some(items)
}

proof fn lemma_formation_none_persists(ps: Seq<Seq<char>>, j: int)
    requires
        0 <= j <= ps.len(),
        formation_items(ps.subrange(0, j)).is_none(),
    ensures
        formation_items(ps).is_none(),
    decreases ps.len(),
{
    if j < ps.len() {
        assert(ps.drop_last().subrange(0, j) =~= ps.subrange(0, j));
        lemma_formation_none_persists(ps.drop_last(), j);
    } else {
        assert(ps.subrange(0, j) =~= ps);
    }
}

proof fn lemma_parse_err_persists(ls: Seq<Seq<char>>, j: int, n: nat)
    requires
        0 <= j <= ls.len(),
        parse_procfile_lines(ls.subrange(0, j)) == Err::<Seq<(Seq<char>, EntryModel)>, nat>(n),
    ensures
        parse_procfile_lines(ls) == Err::<Seq<(Seq<char>, EntryModel)>, nat>(n),
    decreases ls.len(),
{
    if j < ls.len() {
        assert(ls.drop_last().subrange(0, j) =~= ls.subrange(0, j));
        lemma_parse_err_persists(ls.drop_last(), j, n);
    } else {
        assert(ls.subrange(0, j) =~= ls);
    }
}

fn named_count_exec(items: &Vec<(String, usize)>, name: &String) -> (r: Option<usize>)
    ensures
        r == named_count(items@.map_values(|p: (String, usize)| (p.0@, p.1)), name@),
{
    let ghost m = items@.map_values(|p: (String, usize)| (p.0@, p.1));
    let mut found: Option<usize> = None;
    let mut i: usize = 0;
    proof {
        assert(m.subrange(0, 0) =~= Seq::<(Seq<char>, usize)>::empty());
    }
    while i < items.len()
        invariant
            m == items@.map_values(|p: (String, usize)| (p.0@, p.1)),
            i <= items@.len(),
            found == named_count(m.subrange(0, i as int), name@),
        decreases items@.len() - i,
    {
        proof {
            assert(m.subrange(0, i + 1).drop_last() =~= m.subrange(0, i as int));
            assert(m.subrange(0, i + 1).last() == (items@[i as int].0@, items@[i as int].1));
        }
        if items[i].0 == *name {
            found = Some(items[i].1);
        }
        i = i + 1;
    }
    proof {
        assert(m.subrange(0, i as int) =~= m);
    }
    found
}

impl Procfile {
    proof fn lemma_view(&self)
        ensures
            self@.len() == self.data@.len(),
            forall|i: int|
                0 <= i < self@.len() ==> #[trigger] self@[i] == (
                    self.data@[i].0@,
                    (self.data@[i].1.command@, self.data@[i].1.concurrency),
                ),
    {
    }

    /// Each name stands once.
    pub open spec fn wf(&self) -> bool {
        keys_distinct(self@)
    }

    /// A Procfile with no entries.
    pub fn new() -> (r: Procfile)
        ensures
            r@ == Seq::<(Seq<char>, EntryModel)>::empty(),
            r.wf(),
    {
        let r = Procfile { data: Vec::new() };
        assert(r@ =~= Seq::<(Seq<char>, EntryModel)>::empty());
        r
    }

    /// The number of process types.
    pub fn len(&self) -> (r: usize)
        ensures
            r == self@.len(),
    {
        self.data.len()
    }

    /// The name and entry of the `i`-th process type.
    pub fn entry(&self, i: usize) -> (r: (&String, &ProcfileEntry))
        requires
            i < self@.len(),
        ensures
            r.0@ == self@[i as int].0,
            r.1.command@ == self@[i as int].1.0,
            r.1.concurrency == self@[i as int].1.1,
    {
        proof {
            self.lemma_view();
        }
        (&self.data[i].0, &self.data[i].1)
    }

    fn position(&self, name: &String) -> (r: Option<usize>)
        ensures
            match r {
                Some(i) => key_index(self@, name@) == i,
                None => key_index(self@, name@) == -1,
            },
    {
        let mut i: usize = 0;
        proof {
            self.lemma_view();
        }
        while i < self.data.len()
            invariant
                i <= self@.len(),
                self@.len() == self.data@.len(),
                forall|j: int|
                    0 <= j < self@.len() ==> #[trigger] self@[j] == (
                        self.data@[j].0@,
                        (self.data@[j].1.command@, self.data@[j].1.concurrency),
                    ),
                key_index(self@.subrange(0, i as int), name@) == -1,
            decreases self@.len() - i,
        {
            proof {
                assert(self@.subrange(0, i + 1).drop_last() =~= self@.subrange(0, i as int));
            }
            if self.data[i].0 == *name {
                proof {
                    lemma_key_index_found(self@, i as int, name@);
                }
                return Some(i);
            }
            i = i + 1;
        }
        proof {
            assert(self@.subrange(0, i as int) =~= self@);
        }
        None
    }

    /// Adds a process type with one replica, in place of an earlier one of
    /// the same name.
    pub fn insert(&mut self, name: String, command: String)
        requires
            old(self).wf(),
        ensures
            final(self)@ == insert_entry(old(self)@, name@, (command@, 1usize)),
            final(self).wf(),
    {
        proof {
            lemma_insert_keeps_distinct(self@, name@, (command@, 1usize));
            self.lemma_view();
            lemma_key_index_bounds(self@, name@);
        }
        let ghost k = name@;
        let ghost c = command@;
        let entry = ProcfileEntry { command, concurrency: 1 };
        match self.position(&name) {
            Some(i) => {
                self.data.set(i, (name, entry));
                proof {
                    self.lemma_view();
                    assert(self@ =~= insert_entry(old(self)@, k, (c, 1usize)));
                }
            },
            None => {
                self.data.push((name, entry));
                proof {
                    self.lemma_view();
                    assert(self@ =~= insert_entry(old(self)@, k, (c, 1usize)));
                }
            },
        }
    }

    /// Reads the text of a Procfile. Blank lines and lines that start with
    /// `#` are skipped; every other line is `name: command`, split at its
    /// first `:`, with the command trimmed. Each entry runs one replica.
    pub fn parse(text: &str) -> (r: Result<Procfile, ProcfileError>)
        ensures
            match r {
                Ok(p) => p.wf() && parse_procfile_text(text@) == Ok::<_, nat>(p@),
                Err(err) => parse_procfile_text(text@) == Err::<Seq<(Seq<char>, EntryModel)>, nat>(
                    err.line as nat,
                ),
            },
    {
        let lines = split_chars(text, '\n');
        let ghost ls = split_on(text@, '\n');
        let mut pf = Procfile::new();
        let mut i: usize = 0;
        proof {
            assert(ls.subrange(0, 0) =~= Seq::<Seq<char>>::empty());
        }
        while i < lines.len()
            invariant
                ls == split_on(text@, '\n'),
                lines@.len() == ls.len(),
                forall|j: int| 0 <= j < lines@.len() ==> #[trigger] lines@[j]@ == ls[j],
                i <= lines@.len(),
                pf.wf(),
                parse_procfile_lines(ls.subrange(0, i as int)) == Ok::<_, nat>(pf@),
            decreases lines@.len() - i,
        {
            let line = lines[i].as_str();
            proof {
                assert(ls.subrange(0, i + 1).drop_last() =~= ls.subrange(0, i as int));
                assert(ls.subrange(0, i + 1).last() == line@);
            }
            if blank(line) {
            } else if line.get_char(0) == '#' {
            } else {
                let n = line.unicode_len();
                let mut ok = false;
                match find_char(line, ':') {
                    Some(k) => {
                        proof {
                            lemma_find_first_bounds(line@, ':');
                        }
                        let name = slice_string(line, 0, k);
                        if valid_name_exec(name.as_str()) {
                            let rest = slice_string(line, k + 1, n);
                            let command = trimmed(rest.as_str());
                            pf.insert(name, command);
                            ok = true;
                        }
                    },
                    None => {},
                }
                if !ok {
                    proof {
                        assert(procfile_line(line@) == ProcLine::Malformed);
                        assert(parse_procfile_lines(ls.subrange(0, i + 1)) == Err::<
                            Seq<(Seq<char>, EntryModel)>,
                            nat,
                        >((i + 1) as nat));
                        lemma_parse_err_persists(ls, i + 1, (i + 1) as nat);
                    }
                    return Err(ProcfileError { line: i + 1 });
                }
            }
            i = i + 1;
        }
        proof {
            assert(ls.subrange(0, i as int) =~= ls);
        }
        Ok(pf)
    }

    /// Applies a formation string `NAME=UINT(,NAME=UINT)*`. An `all` item
    /// sets every entry; an item of an entry's own name sets that entry and
    /// wins over `all`; among items of one name the last wins; unknown names
    /// are ignored. An empty or malformed formation changes nothing.
    pub fn set_concurrency(&mut self, formation: &str)
        requires
            old(self).wf(),
        ensures
            final(self)@ == with_formation(old(self)@, formation@),
            final(self).wf(),
    {
        let items = match parse_formation_exec(formation) {
            Some(items) => items,
            None => {
                return;
            },
        };
        let ghost m = items@.map_values(|p: (String, usize)| (p.0@, p.1));
        let all = String::from_str("all");
        proof {
            reveal_strlit("all");
            assert(all@ =~= all_name());
        }
        let all_count = named_count_exec(&items, &all);
        let mut i: usize = 0;
        proof {
            self.lemma_view();
        }
        while i < self.data.len()
            invariant
                m == items@.map_values(|p: (String, usize)| (p.0@, p.1)),
                parse_formation(formation@) == Some(m),
                all_count == named_count(m, all_name()),
                i <= self@.len(),
                self@.len() == old(self)@.len(),
                self@.len() == self.data@.len(),
                forall|j: int|
                    0 <= j < self@.len() ==> #[trigger] self@[j] == (
                        self.data@[j].0@,
                        (self.data@[j].1.command@, self.data@[j].1.concurrency),
                    ),
                forall|j: int| 0 <= j < i ==> #[trigger] self@[j] == apply_items(old(self)@, m)[j],
                forall|j: int| i <= j < self@.len() ==> #[trigger] self@[j] == old(self)@[j],
            decreases self@.len() - i,
        {
            let c = match named_count_exec(&items, &self.data[i].0) {
                Some(c) => c,
                None => match all_count {
                    Some(c) => c,
                    None => self.data[i].1.concurrency,
                },
            };
            let ghost before = self.data@;
            let ghost prev = self@;
            let mut slot = self.data.remove(i);
            slot.1.concurrency = c;
            let ghost new_slot = slot;
            self.data.insert(i, slot);
            proof {
                assert(self.data@ =~= before.update(i as int, new_slot));
                assert(prev[i as int] == old(self)@[i as int]);
                assert(new_slot.0@ == old(self)@[i as int].0);
                assert(new_slot.1.command@ == old(self)@[i as int].1.0);
                assert(c == formation_count(m, old(self)@[i as int].0, old(self)@[i as int].1.1));
                self.lemma_view();
                assert(self@[i as int] == apply_items(old(self)@, m)[i as int]);
                assert(self@ =~= prev.update(i as int, apply_items(old(self)@, m)[i as int]));
            }
            i = i + 1;
        }
        proof {
            assert(self@ =~= apply_items(old(self)@, m));
            assert forall|a: int, b: int| 0 <= a < b < self@.len() implies #[trigger] self@[a].0
                != #[trigger] self@[b].0 by {
                assert(old(self)@[a].0 != old(self)@[b].0);
            }
        }
    }

    /// The number of replicas over all entries; `None` when it does not fit
    /// a `usize`.
    pub fn process_len(&self) -> (r: Option<usize>)
        ensures
            match r {
                Some(n) => n == total_concurrency(self@),
                None => total_concurrency(self@) > usize::MAX,
            },
    {
        proof {
            self.lemma_view();
        }
        let mut total: usize = 0;
        let mut i: usize = 0;
        proof {
            assert(self@.subrange(0, 0) =~= Seq::<(Seq<char>, EntryModel)>::empty());
        }
        while i < self.data.len()
            invariant
                i <= self@.len(),
                self@.len() == self.data@.len(),
                forall|j: int|
                    0 <= j < self@.len() ==> #[trigger] self@[j] == (
                        self.data@[j].0@,
                        (self.data@[j].1.command@, self.data@[j].1.concurrency),
                    ),
                total == total_concurrency(self@.subrange(0, i as int)),
            decreases self@.len() - i,
        {
            proof {
                assert(self@.subrange(0, i + 1).drop_last() =~= self@.subrange(0, i as int));
            }
            let c = self.data[i].1.concurrency;
            if total > usize::MAX - c {
                proof {
                    lemma_total_prefix(self@, i + 1);
                }
                return None;
            }
            total = total + c;
            i = i + 1;
        }
        proof {
            assert(self@.subrange(0, i as int) =~= self@);
        }
        Some(total)
    }

    /// The width of the widest display name `name.N` over all replicas,
    /// or `usize::MAX` where that does not fit.
    pub fn padding(&self) -> (r: usize)
        ensures
            r == if padding_of(self@) <= usize::MAX {
                padding_of(self@)
            } else {
                usize::MAX as nat
            },
    {
        proof {
            self.lemma_view();
        }
        let mut width: usize = 0;
        let mut i: usize = 0;
        proof {
            assert(self@.subrange(0, 0) =~= Seq::<(Seq<char>, EntryModel)>::empty());
        }
        while i < self.data.len()
            invariant
                i <= self@.len(),
                self@.len() == self.data@.len(),
                forall|j: int|
                    0 <= j < self@.len() ==> #[trigger] self@[j] == (
                        self.data@[j].0@,
                        (self.data@[j].1.command@, self.data@[j].1.concurrency),
                    ),
                width == if padding_of(self@.subrange(0, i as int)) <= usize::MAX {
                    padding_of(self@.subrange(0, i as int))
                } else {
                    usize::MAX as nat
                },
            decreases self@.len() - i,
        {
            proof {
                assert(self@.subrange(0, i + 1).drop_last() =~= self@.subrange(0, i as int));
            }
            let c = self.data[i].1.concurrency;
            if c > 0 {
                let a = self.data[i].0.as_str().unicode_len();
                let d = decimal_len(c);
                let w = if a < usize::MAX - d {
                    a + 1 + d
                } else {
                    usize::MAX
                };
                if w > width {
                    width = w;
                }
            }
            i = i + 1;
        }
        proof {
            assert(self@.subrange(0, i as int) =~= self@);
        }
        width
    }
}

proof fn lemma_total_prefix(e: Seq<(Seq<char>, EntryModel)>, j: int)
    requires
        0 <= j <= e.len(),
    ensures
        total_concurrency(e.subrange(0, j)) <= total_concurrency(e),
    decreases e.len(),
{
    if j < e.len() {
        assert(e.drop_last().subrange(0, j) =~= e.subrange(0, j));
        lemma_total_prefix(e.drop_last(), j);
    } else {
        assert(e.subrange(0, j) =~= e);
    }
}

/// The formation text `name=m`.
pub open spec fn formation_text(name: Seq<char>, m: usize) -> Seq<char> {
    name + seq!['='] + decimal(m as nat)
}

proof fn lemma_item_text(name: Seq<char>, m: usize)
    requires
        valid_name(name),
    ensures
        formation_item(formation_text(name, m)) == Some((name, m)),
        !formation_text(name, m).contains(','),
{
    let f = formation_text(name, m);
    let d = decimal(m as nat);
    lemma_decimal_value(m as nat);
    lemma_decimal_len(m as nat);
    assert(!f.contains(',')) by {
        if f.contains(',') {
            let i = choose|i: int| 0 <= i < f.len() && f[i] == ',';
            if i < name.len() {
                assert(is_name_char(name[i]));
            } else if i > name.len() {
                assert(crate::num::is_digit(d[i - name.len() - 1]));
            }
        }
    }
    assert(!name.contains('=')) by {
        if name.contains('=') {
            let i = choose|i: int| 0 <= i < name.len() && name[i] == '=';
            assert(is_name_char(name[i]));
        }
    }
    lemma_find_first_absent(name, '=');
    let ne = name.push('=');
    assert(ne.drop_last() =~= name);
    assert(f =~= ne + d);
    lemma_find_first_extend(ne, d, '=');
    assert(f.subrange(0, name.len() as int) =~= name);
    assert(f.subrange(name.len() + 1 as int, f.len() as int) =~= d);
    assert(unsigned_value(d) == Some(m as nat));
    assert(formation_item(f) == Some((name, m)));
}

proof fn lemma_single_item(name: Seq<char>, m: usize)
    requires
        valid_name(name),
    ensures
        parse_formation(formation_text(name, m)) == Some(seq![(name, m)]),
{
    let f = formation_text(name, m);
    lemma_item_text(name, m);
    lemma_split_on_append(Seq::empty(), f, ',');
    assert(Seq::<char>::empty() + f =~= f);
    assert(split_on(f, ',') =~= seq![f]);
    assert(seq![f].drop_last() =~= Seq::<Seq<char>>::empty());
    assert(seq![f].last() == f);
    assert(formation_items(Seq::<Seq<char>>::empty()) == Some(Seq::<(Seq<char>, usize)>::empty()));
    assert(seq![(name, m)] =~= Seq::<(Seq<char>, usize)>::empty().push((name, m)));
    assert(formation_items(seq![f]) == Some(seq![(name, m)]));
}

/// Applying the formation `all=n` and then the formation `name=m` leaves
/// every entry at `n` replicas, except the entry called `name`, which gets
/// `m`; names and commands stay as they were.
pub proof fn lemma_all_then_name(e: Seq<(Seq<char>, EntryModel)>, n: usize, name: Seq<char>, m: usize)
    requires
        valid_name(name),
        name != all_name(),
    ensures
        ({
            let r = with_formation(with_formation(e, formation_text(all_name(), n)), formation_text(name, m));
            &&& r.len() == e.len()
            &&& forall|i: int|
                0 <= i < e.len() ==> (#[trigger] r[i]).0 == e[i].0 && r[i].1.0 == e[i].1.0 && r[i].1.1
                    == if e[i].0 == name {
                    m
                } else {
                    n
                }
        }),
{
    assert(valid_name(all_name())) by {
        assert forall|i: int| 0 <= i < all_name().len() implies is_name_char(
            #[trigger] all_name()[i],
        ) by {}
    }
    lemma_single_item(all_name(), n);
    lemma_single_item(name, m);
    let items1 = seq![(all_name(), n)];
    let items2 = seq![(name, m)];
    assert(items1.drop_last() =~= Seq::<(Seq<char>, usize)>::empty());
    assert(items2.drop_last() =~= Seq::<(Seq<char>, usize)>::empty());
    assert forall|x: Seq<char>| #[trigger] named_count(Seq::<(Seq<char>, usize)>::empty(), x).is_none() by {}
    assert(items1.last() == (all_name(), n));
    assert(items2.last() == (name, m));
    assert(named_count(items1, all_name()) == Some(n));
    assert(named_count(items2, all_name()) == named_count(items2.drop_last(), all_name()));
    assert(named_count(items2.drop_last(), all_name()).is_none());
    assert(named_count(items2, all_name()).is_none());
    assert forall|x: Seq<char>, c: usize| #[trigger] formation_count(items1, x, c) == n by {
        if x != all_name() {
            assert(named_count(items1, x) == named_count(items1.drop_last(), x));
            assert(named_count(items1.drop_last(), x).is_none());
        }
    }
    assert forall|x: Seq<char>, c: usize| #[trigger] formation_count(items2, x, c) == if x == name {
        m
    } else {
        c
    } by {
        if x != name {
            assert(named_count(items2, x) == named_count(items2.drop_last(), x));
            assert(named_count(items2.drop_last(), x).is_none());
        }
    }
    let r1 = with_formation(e, formation_text(all_name(), n));
    assert(r1 == apply_items(e, items1));
    let r = with_formation(r1, formation_text(name, m));
    assert(r == apply_items(r1, items2));
}

/// The one formation `all=n,name=m` leaves every entry at `n` replicas,
/// except the entry called `name`, which gets `m`; names and commands stay
/// as they were.
pub proof fn lemma_all_and_name(e: Seq<(Seq<char>, EntryModel)>, n: usize, name: Seq<char>, m: usize)
    requires
        valid_name(name),
        name != all_name(),
    ensures
        ({
            let r = with_formation(e, formation_text(all_name(), n) + seq![','] + formation_text(name, m));
            &&& r.len() == e.len()
            &&& forall|i: int|
                0 <= i < e.len() ==> (#[trigger] r[i]).0 == e[i].0 && r[i].1.0 == e[i].1.0 && r[i].1.1
                    == if e[i].0 == name {
                    m
                } else {
                    n
                }
        }),
{
    assert(valid_name(all_name())) by {
        assert forall|i: int| 0 <= i < all_name().len() implies is_name_char(
            #[trigger] all_name()[i],
        ) by {}
    }
    let f1 = formation_text(all_name(), n);
    let f2 = formation_text(name, m);
    lemma_item_text(all_name(), n);
    lemma_item_text(name, m);
    let f = f1 + seq![','] + f2;
    // the pieces of f are f1 and f2
    lemma_split_on_append(Seq::empty(), f1, ',');
    assert(Seq::<char>::empty() + f1 =~= f1);
    assert(split_on(f1, ',') =~= seq![f1]);
    let f1c = f1.push(',');
    assert(f1c.drop_last() =~= f1);
    assert(split_on(f1c, ',') =~= seq![f1, Seq::<char>::empty()]);
    lemma_split_on_append(f1c, f2, ',');
    assert(f =~= f1c + f2);
    assert(Seq::<char>::empty() + f2 =~= f2);
    let ps = seq![f1, f2];
    assert(split_on(f, ',') =~= ps);
    assert(ps.drop_last() =~= seq![f1]);
    assert(seq![f1].drop_last() =~= Seq::<Seq<char>>::empty());
    assert(formation_items(Seq::<Seq<char>>::empty()) == Some(Seq::<(Seq<char>, usize)>::empty()));
    assert(formation_items(seq![f1]) == Some(Seq::<(Seq<char>, usize)>::empty().push((all_name(), n))));
    let items = seq![(all_name(), n), (name, m)];
    assert(Seq::<(Seq<char>, usize)>::empty().push((all_name(), n)).push((name, m)) =~= items);
    assert(parse_formation(f) == Some(items));
    let one = seq![(all_name(), n)];
    assert(items.drop_last() =~= one);
    assert(one.drop_last() =~= Seq::<(Seq<char>, usize)>::empty());
    assert forall|x: Seq<char>| #[trigger] named_count(Seq::<(Seq<char>, usize)>::empty(), x).is_none() by {}
    assert(named_count(items, all_name()) == named_count(one, all_name()));
    assert(named_count(items, all_name()) == Some(n));
    assert forall|x: Seq<char>, c: usize| #[trigger] formation_count(items, x, c) == if x == name {
        m
    } else {
        n
    } by {
        if x != name {
            assert(named_count(items, x) == named_count(one, x));
            if x != all_name() {
                assert(named_count(one, x) == named_count(one.drop_last(), x));
            }
        }
    }
}

} // verus!
