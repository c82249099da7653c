//! The table of command aliases: names of commands that a recipe does not
//! spell out, each with the shell command line that stands for it.
//!
//! The table is written as a text of `name: command` lines.

use crate::line::{declared_key, declared_value, has_colon, split_declaration};
use crate::text::{chars_of, lines, split_line, string_of};
use vstd::prelude::*;
use vstd::string::StringExecFns;

verus! {

/// One alias: a name and the command line that stands for it.
#[derive(Debug)]
pub struct Alias {
    pub name: String,
    pub template: String,
}

/// The table that the aliases `es` make, a later alias replacing an earlier
/// one of the same name.
pub open spec fn table_of(es: Seq<Alias>) -> Map<Seq<char>, Seq<char>>
    decreases es.len(),
{
    if es.len() == 0 {
        Map::empty()
    } else {
        table_of(es.drop_last()).insert(es.last().name@, es.last().template@)
    }
}

/// A name stands for the command of the last alias that has it.
pub proof fn lemma_table_of(es: Seq<Alias>, name: Seq<char>, n: int)
    requires
        0 <= n <= es.len(),
        forall|j: int| n <= j < es.len() ==> (#[trigger] es[j]).name@ != name,
        n > 0 ==> es[n - 1].name@ == name,
    ensures
        n > 0 ==> table_of(es).contains_key(name) && table_of(es)[name] == es[n - 1].template@,
        n == 0 ==> !table_of(es).contains_key(name),
    decreases es.len(),
{
    if es.len() > 0 {
        if n < es.len() {
            let t = es.drop_last();
            assert forall|j: int| n <= j < t.len() implies (#[trigger] t[j]).name@ != name by {
                assert(t[j] == es[j]);
            }
            if n > 0 {
                assert(t[n - 1] == es[n - 1]);
            }
            lemma_table_of(t, name, n);
            assert(es.last().name@ != name);
        }
    }
}

/// A table of command aliases. Its view maps each name to its command line.
#[derive(Debug)]
pub struct AliasTable {
    entries: Vec<Alias>,
}

impl View for AliasTable {
    type V = Map<Seq<char>, Seq<char>>;

    closed spec fn view(&self) -> Map<Seq<char>, Seq<char>> {
        table_of(self.entries@)
    }
}

impl AliasTable {
    /// The table without aliases.
    pub fn new() -> (r: AliasTable)
        ensures
            r@ == Map::<Seq<char>, Seq<char>>::empty(),
    {
        AliasTable { entries: Vec::new() }
    }

    /// Lets `name` stand for `template`, in place of what it stood for.
    pub fn insert(&mut self, name: String, template: String)
        ensures
            final(self)@ == old(self)@.insert(name@, template@),
    {
        let ghost before = self.entries@;
        self.entries.push(Alias { name, template });
        assert(self.entries@.drop_last() == before);
    }

    /// The command line that `name` stands for, if it is in the table.
    pub fn get(&self, name: &str) -> (r: Option<&String>)
        ensures
            match r {
                Some(template) => self@.contains_key(name@) && self@[name@] == template@,
                None => !self@.contains_key(name@),
            },
    {
        let wanted = String::from_str(name);
        let mut n: usize = self.entries.len();
        while n > 0
            invariant
                n <= self.entries.len(),
                wanted@ == name@,
                forall|j: int| n <= j < self.entries@.len() ==> (#[trigger] self.entries@[j]).name@
                    != name@,
            decreases n,
        {
            if self.entries[n - 1].name == wanted {
                proof {
                    lemma_table_of(self.entries@, name@, n as int);
                }
                return Some(&self.entries[n - 1].template);
            }
            n -= 1;
        }
        proof {
            lemma_table_of(self.entries@, name@, 0);
        }
        None
    }
}

/// The table `table` after the lines `ls` were read, each declaring one
/// alias. `None` where a line holds no colon.
pub open spec fn aliases_from(table: Map<Seq<char>, Seq<char>>, ls: Seq<Seq<char>>) -> Option<
    Map<Seq<char>, Seq<char>>,
>
    decreases ls.len(),
{
    if ls.len() == 0 {
        Some(table)
    } else if has_colon(ls.first()) {
        aliases_from(
            table.insert(declared_key(ls.first()), declared_value(ls.first())),
            ls.drop_first(),
        )
    } else {
        None
    }
}

/// The table that the text `config` declares, one alias on each line: the
/// name before the first colon, the command line after it, both trimmed.
/// `None` where a line holds no colon.
pub open spec fn parsed_aliases(config: Seq<char>) -> Option<Map<Seq<char>, Seq<char>>> {
    aliases_from(Map::empty(), lines(config))
}

/// Reads the table of command aliases from the text that declares it.
pub fn get_cmds(config: &str) -> (r: Option<AliasTable>)
    ensures
        match r {
            Some(table) => parsed_aliases(config@) == Some(table@),
            None => parsed_aliases(config@) is None,
        },
{
    let text = chars_of(config);
    let mut table = AliasTable::new();
    let mut rest = text.as_slice();
    while rest.len() > 0
        invariant
            parsed_aliases(config@) == aliases_from(table@, lines(rest@)),
        decreases rest@.len(),
    {
        let (line, tail) = split_line(rest);
        match split_declaration(line) {
            Some((name, template)) => {
                table.insert(string_of(name), string_of(template));
            },
            None => {
                return None;
            },
        }
        rest = tail;
    }
    Some(table)
}

} // verus!
