//! The table of operators: for each symbol its fixity and its precedence.

use crate::syntax::parser::{Assoc, Fixity, Operator};
use vstd::hash_map::StringHashMap;
use vstd::prelude::*;
use vstd::string::*;

verus! {

/// The rows of the table: symbol, fixity, precedence. An operator of higher
/// precedence binds its operands more tightly.
pub open spec fn table_rows() -> Seq<(Seq<char>, Fixity, u8)> {
    seq![
        ("+"@, Fixity::Infix(Assoc::Left), 10u8),
        ("-"@, Fixity::Infix(Assoc::Left), 10u8),
        ("*"@, Fixity::Infix(Assoc::Left), 20u8),
        ("/"@, Fixity::Infix(Assoc::Left), 20u8),
        ("&&"@, Fixity::Infix(Assoc::Left), 5u8),
        ("||"@, Fixity::Infix(Assoc::Left), 3u8),
        ("<"@, Fixity::Infix(Assoc::Left), 8u8),
        ("<="@, Fixity::Infix(Assoc::Left), 8u8),
        (">"@, Fixity::Infix(Assoc::Left), 8u8),
        (">="@, Fixity::Infix(Assoc::Left), 8u8),
        ("=="@, Fixity::Infix(Assoc::Left), 8u8),
        ("!="@, Fixity::Infix(Assoc::Left), 8u8),
        ("!"@, Fixity::Prefix, 25u8),
    ]
}

/// The first row at or after `from` whose symbol is `sym`.
pub open spec fn row_from(rows: Seq<(Seq<char>, Fixity, u8)>, sym: Seq<char>, from: int) -> Option<
    (Fixity, u8),
>
    decreases rows.len() - from,
{
    if from < 0 || from >= rows.len() {
        None
    } else if rows[from].0 == sym {
        Some((rows[from].1, rows[from].2))
    } else {
        row_from(rows, sym, from + 1)
    }
}

/// The fixity and the precedence that the table gives to the symbol `sym`,
/// if it holds that symbol.
pub open spec fn table_entry(sym: Seq<char>) -> Option<(Fixity, u8)> {
    row_from(table_rows(), sym, 0)
}

/// `op` is an operator as the table holds it.
pub open spec fn is_table_operator(op: Operator) -> bool {
    table_entry(op.sym@) == Some((op.fixity, op.prec))
}

/// The operator table as a value: a map from the symbols to the
/// operators. It is built once and handed to whoever looks symbols up.
pub struct OpTable {
    entries: StringHashMap<Operator<'static>>,
}

/// `entries` holds, for each symbol, what the rows of the table give it.
spec fn holds_the_rows(entries: Map<Seq<char>, Operator<'static>>) -> bool {
    forall|sym: Seq<char>|
        match table_entry(sym) {
            Some((fixity, prec)) => {
                &&& #[trigger] entries.contains_key(sym)
                &&& entries[sym].sym@ == sym
                &&& entries[sym].fixity == fixity
                &&& entries[sym].prec == prec
            },
            None => !entries.contains_key(sym),
        }
}

/// The symbols of the table differ from each other.
proof fn lemma_symbols_differ()
    ensures
        forall|i: int, j: int|
            0 <= i < j < table_rows().len() ==> (#[trigger] table_rows()[i]).0 != (
            #[trigger] table_rows()[j]).0,
{
    reveal_strlit("+");
    reveal_strlit("-");
    reveal_strlit("*");
    reveal_strlit("/");
    reveal_strlit("&&");
    reveal_strlit("||");
    reveal_strlit("<");
    reveal_strlit("<=");
    reveal_strlit(">");
    reveal_strlit(">=");
    reveal_strlit("==");
    reveal_strlit("!=");
    reveal_strlit("!");
    let rows = table_rows();
    assert forall|i: int, j: int| 0 <= i < j < rows.len() implies (#[trigger] rows[i]).0 != (
    #[trigger] rows[j]).0 by {
        let a = rows[i].0;
        let b = rows[j].0;
        if a.len() == b.len() {
            assert(a[0] != b[0] || (a.len() == 2 && a[1] != b[1]));
        }
    }
}

impl OpTable {
    #[verifier::type_invariant]
    spec fn well_formed(&self) -> bool {
        holds_the_rows(self.entries@)
    }

    /// What the table holds for the symbol `sym`: fixity and precedence.
    pub closed spec fn held(&self, sym: Seq<char>) -> Option<(Fixity, u8)> {
        if self.entries@.contains_key(sym) {
            Some((self.entries@[sym].fixity, self.entries@[sym].prec))
        } else {
            None
        }
    }

    /// The table with the thirteen operators of the language.
    pub fn new() -> (table: Self)
        ensures
            forall|sym: Seq<char>| #[trigger] table.held(sym) == table_entry(sym),
    {
        let left = Fixity::Infix(Assoc::Left);
        let mut entries: StringHashMap<Operator<'static>> = StringHashMap::new();
        entries.insert(String::from_str("+"), Operator { sym: "+", fixity: left, prec: 10 });
        entries.insert(String::from_str("-"), Operator { sym: "-", fixity: left, prec: 10 });
        entries.insert(String::from_str("*"), Operator { sym: "*", fixity: left, prec: 20 });
        entries.insert(String::from_str("/"), Operator { sym: "/", fixity: left, prec: 20 });
        entries.insert(String::from_str("&&"), Operator { sym: "&&", fixity: left, prec: 5 });
        entries.insert(String::from_str("||"), Operator { sym: "||", fixity: left, prec: 3 });
        entries.insert(String::from_str("<"), Operator { sym: "<", fixity: left, prec: 8 });
        entries.insert(String::from_str("<="), Operator { sym: "<=", fixity: left, prec: 8 });
        entries.insert(String::from_str(">"), Operator { sym: ">", fixity: left, prec: 8 });
        entries.insert(String::from_str(">="), Operator { sym: ">=", fixity: left, prec: 8 });
        entries.insert(String::from_str("=="), Operator { sym: "==", fixity: left, prec: 8 });
        entries.insert(String::from_str("!="), Operator { sym: "!=", fixity: left, prec: 8 });
        entries.insert(String::from_str("!"), Operator { sym: "!", fixity: Fixity::Prefix, prec: 25 });
        proof {
            lemma_symbols_differ();
            assert forall|sym: Seq<char>|
                match table_entry(sym) {
                    Some((fixity, prec)) => {
                        &&& #[trigger] entries@.contains_key(sym)
                        &&& entries@[sym].sym@ == sym
                        &&& entries@[sym].fixity == fixity
                        &&& entries@[sym].prec == prec
                    },
                    None => !entries@.contains_key(sym),
                } by {
                reveal_with_fuel(row_from, 14);
            }
        }
        OpTable { entries }
    }

    /// The operator that the table holds for the symbol `sym`.
    pub fn get(&self, sym: &str) -> (found: Option<Operator<'static>>)
        ensures
            match table_entry(sym@) {
                Some((fixity, prec)) => found matches Some(op) && op.sym@ == sym@ && op.fixity
                    == fixity && op.prec == prec,
                None => found is None,
            },
    {
        proof {
            use_type_invariant(self);
        }
        match self.entries.get(sym) {
            Some(op) => Some(*op),
            None => None,
        }
    }
}

} // verus!
