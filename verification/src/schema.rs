//! Schemas: ordered lists of named, typed columns, with resolution of a
//! column reference (a name or a 0-based position) to its position.

use vstd::prelude::*;
use vstd::string::StringExecFns;
use crate::scalars::DataType;

verus! {

/// Mathematical value of a field: its name as characters and its declared kind.
pub ghost struct FieldV {
    pub name: Seq<char>,
    pub kind: DataType,
}

/// One schema entry: a column's name and its declared scalar kind.
#[derive(Debug, PartialEq)]
pub struct Field {
    pub name: String,
    pub kind: DataType,
}

impl View for Field {
    type V = FieldV;

    open spec fn view(&self) -> FieldV {
        FieldV { name: self.name@, kind: self.kind }
    }
}

impl Clone for Field {
    fn clone(&self) -> (r: Self)
        ensures
            r@ == self@,
    {
        Field { name: self.name.clone(), kind: self.kind }
    }
}

impl Field {
    pub fn new(name: &str, kind: DataType) -> (f: Field)
        ensures
            f@.name == name@,
            f@.kind == kind,
    {
        Field { name: name.to_owned(), kind }
    }
}

/// A column reference: by name, or by 0-based position.
pub ghost enum ColumnNameV {
    Name(Seq<char>),
    Pos(usize),
}

/// A column reference: by name, or by 0-based position. Resolving a name
/// finds the first field with that name; resolving an unknown name or an
/// out-of-range position is a caller error.
#[derive(Debug, PartialEq)]
pub enum ColumnName {
    Name(String),
    Pos(usize),
}

impl View for ColumnName {
    type V = ColumnNameV;

    open spec fn view(&self) -> ColumnNameV {
        match self {
            ColumnName::Name(s) => ColumnNameV::Name(s@),
            ColumnName::Pos(p) => ColumnNameV::Pos(*p),
        }
    }
}

impl Clone for ColumnName {
    fn clone(&self) -> (r: Self)
        ensures
            r@ == self@,
    {
        match self {
            ColumnName::Name(s) => ColumnName::Name(s.clone()),
            ColumnName::Pos(p) => ColumnName::Pos(*p),
        }
    }
}

/// Whether some field of `s` is named `n`.
pub open spec fn contains_name(s: Seq<FieldV>, n: Seq<char>) -> bool {
    exists|i: int| 0 <= i < s.len() && s[i].name == n
}

/// Position of the first field of `s` named `n`; `s.len()` if there is none.
pub open spec fn name_index(s: Seq<FieldV>, n: Seq<char>) -> int
    decreases s.len(),
{
    if s.len() == 0 {
        0
    } else if s[0].name == n {
        0
    } else {
        1 + name_index(s.drop_first(), n)
    }
}

/// `name_index` finds the first field with the given name, or runs off the end.
pub broadcast proof fn lemma_name_index(s: Seq<FieldV>, n: Seq<char>)
    ensures
        0 <= #[trigger] name_index(s, n) <= s.len(),
        name_index(s, n) < s.len() ==> s[name_index(s, n)].name == n,
        forall|j: int| 0 <= j < name_index(s, n) ==> s[j].name != n,
        (name_index(s, n) < s.len()) == contains_name(s, n),
    decreases s.len(),
{
    if s.len() == 0 {
    } else if s[0].name == n {
    } else {
        lemma_name_index(s.drop_first(), n);
        assert forall|j: int| 0 <= j < name_index(s, n) implies s[j].name != n by {
            if j > 0 {
                assert(s.drop_first()[j - 1].name != n);
            }
        }
        if name_index(s, n) < s.len() {
            assert(s[name_index(s, n)] == s.drop_first()[name_index(s.drop_first(), n)]);
        }
        if contains_name(s, n) {
            let i = choose|i: int| 0 <= i < s.len() && s[i].name == n;
            assert(s.drop_first()[i - 1].name == n);
        }
        if contains_name(s.drop_first(), n) {
            let i = choose|i: int| 0 <= i < s.drop_first().len() && s.drop_first()[i].name == n;
            assert(s[i + 1].name == n);
        }
    }
}

/// What a column reference resolves to in schema `s`: a position as given,
/// or the first field with the name.
pub open spec fn resolve_spec(s: Seq<FieldV>, c: ColumnNameV) -> int {
    match c {
        ColumnNameV::Pos(p) => p as int,
        ColumnNameV::Name(n) => name_index(s, n),
    }
}

/// Whether a column reference resolves in schema `s`.
pub open spec fn resolves(s: Seq<FieldV>, c: ColumnNameV) -> bool {
    match c {
        ColumnNameV::Pos(p) => (p as int) < s.len(),
        ColumnNameV::Name(n) => contains_name(s, n),
    }
}

/// An ordered sequence of fields; order defines column positions and is the
/// only source of the column count and the layout shape.
#[derive(Debug, PartialEq)]
pub struct Schema {
    pub columns: Vec<Field>,
}

impl View for Schema {
    type V = Seq<FieldV>;

    open spec fn view(&self) -> Seq<FieldV> {
        Seq::new(self.columns@.len(), |i: int| self.columns@[i]@)
    }
}

impl Clone for Schema {
    #[verifier::loop_isolation(false)]
    fn clone(&self) -> (r: Self)
        ensures
            r@ == self@,
    {
        let mut out: Vec<Field> = Vec::new();
        let mut i: usize = 0;
        while i < self.columns.len()
            invariant
                i <= self.columns.len(),
                out@.len() == i,
                forall|j: int| 0 <= j < i ==> (#[trigger] out@[j])@ == self.columns@[j]@,
            decreases self.columns.len() - i,
        {
            out.push(self.columns[i].clone());
            i = i + 1;
        }
        let r = Schema { columns: out };
        proof {
            assert(r@ =~= self@);
        }
        r
    }
}

impl Schema {
    pub fn new(fields: Vec<Field>) -> (s: Schema)
        ensures
            s@ == Seq::new(fields@.len(), |i: int| fields@[i]@),
    {
        Schema { columns: fields }
    }

    /// A schema of one field.
    pub fn new_single(name: &str, kind: DataType) -> (s: Schema)
        ensures
            s@.len() == 1,
            s@[0].name == name@,
            s@[0].kind == kind,
    {
        let mut fields: Vec<Field> = Vec::new();
        fields.push(Field::new(name, kind));
        Schema { columns: fields }
    }

    /// The single-column schema a bare scalar is given.
    pub fn scalar_field(kind: DataType) -> (s: Schema)
        ensures
            s@.len() == 1,
            s@[0].name == "it"@,
            s@[0].kind == kind,
    {
        Schema::new_single("it", kind)
    }

    pub fn len(&self) -> (n: usize)
        ensures
            n == self@.len(),
    {
        self.columns.len()
    }

    /// Whether the two schemas hold the same fields in the same order.
    #[verifier::loop_isolation(false)]
    pub fn schema_eq(&self, other: &Schema) -> (r: bool)
        ensures
            r == (self@ == other@),
    {
        if self.columns.len() != other.columns.len() {
            proof {
                assert(self@.len() != other@.len());
            }
            return false;
        }
        let mut i: usize = 0;
        while i < self.columns.len()
            invariant
                i <= self.columns.len(),
                self.columns@.len() == other.columns@.len(),
                forall|j: int| 0 <= j < i ==> self@[j] == other@[j],
            decreases self.columns.len() - i,
        {
            let a = &self.columns[i];
            let b = &other.columns[i];
            if !(a.name == b.name) || !(a.kind == b.kind) {
                proof {
                    assert(self@[i as int] != other@[i as int]);
                }
                return false;
            }
            i = i + 1;
        }
        proof {
            assert(self@ =~= other@);
        }
        true
    }

    /// Resolve one column reference to its position: a position is taken as
    /// given; a name finds the first field carrying it.
    #[verifier::loop_isolation(false)]
    pub fn resolve_pos(&self, of: &ColumnName) -> (p: usize)
        requires
            resolves(self@, of@),
        ensures
            p == resolve_spec(self@, of@),
            p < self@.len(),
    {
        broadcast use lemma_name_index;

        match of {
            ColumnName::Pos(p) => *p,
            ColumnName::Name(n) => {
                let mut i: usize = 0;
                while i < self.columns.len()
                    invariant
                        i <= self.columns.len(),
                        forall|j: int| 0 <= j < i ==> self@[j].name != n@,
                    decreases self.columns.len() - i,
                {
                    if self.columns[i].name == *n {
                        proof {
                            assert(forall|j: int|
                                0 <= j < i ==> #[trigger] self@[j] == self@[j] && self@[j].name
                                    != n@);
                            assert(self@[i as int].name == n@);
                            assert(name_index(self@, n@) == i) by {
                                lemma_name_index(self@, n@);
                            }
                        }
                        return i;
                    }
                    i = i + 1;
                }
                proof {
                    assert(!contains_name(self@, n@));
                }
                0
            },
        }
    }

    /// Resolve a list of column references, in request order.
    #[verifier::loop_isolation(false)]
    pub fn resolve_pos_many(&self, of: &[ColumnName]) -> (r: Vec<usize>)
        requires
            forall|k: int| 0 <= k < of@.len() ==> resolves(self@, (#[trigger] of@[k])@),
        ensures
            r@.len() == of@.len(),
            forall|k: int|
                0 <= k < of@.len() ==> (#[trigger] r@[k]) == resolve_spec(self@, of@[k]@) && r@[k]
                    < self@.len(),
    {
        let mut r: Vec<usize> = Vec::new();
        let mut k: usize = 0;
        while k < of.len()
            invariant
                k <= of@.len(),
                r@.len() == k,
                forall|j: int|
                    0 <= j < k ==> (#[trigger] r@[j]) == resolve_spec(self@, of@[j]@) && r@[j]
                        < self@.len(),
            decreases of@.len() - k,
        {
            let p = self.resolve_pos(&of[k]);
            r.push(p);
            k = k + 1;
        }
        r
    }

    /// The schema holding only the fields at `pos`, in that order.
    #[verifier::loop_isolation(false)]
    pub fn only(&self, pos: &[usize]) -> (r: Schema)
        requires
            forall|k: int| 0 <= k < pos@.len() ==> (#[trigger] pos@[k]) < self@.len(),
        ensures
            r@ == pos@.map_values(|p: usize| self@[p as int]),
    {
        let mut out: Vec<Field> = Vec::new();
        let mut k: usize = 0;
        while k < pos.len()
            invariant
                k <= pos@.len(),
                out@.len() == k,
                forall|j: int| 0 <= j < k ==> (#[trigger] out@[j])@ == self@[pos@[j] as int],
            decreases pos@.len() - k,
        {
            let p = pos[k];
            out.push(self.columns[p].clone());
            k = k + 1;
        }
        let r = Schema { columns: out };
        proof {
            assert(r@ =~= pos@.map_values(|p: usize| self@[p as int]));
        }
        r
    }

    /// The positions of this schema not listed in `pos`, in increasing order.
    #[verifier::loop_isolation(false)]
    pub fn except(&self, pos: &[usize]) -> (r: Vec<usize>)
        ensures
            r@ == Seq::new(self@.len(), |i: int| i as usize).filter(
                |p: usize| !pos@.contains(p),
            ),
            forall|k: int| 0 <= k < r@.len() ==> (#[trigger] r@[k]) < self@.len(),
    {
        broadcast use vstd::seq_lib::group_seq_lib_default;

        let ghost all = Seq::new(self@.len(), |i: int| i as usize);
        let ghost pred = |p: usize| !pos@.contains(p);
        let mut out: Vec<usize> = Vec::new();
        let mut i: usize = 0;
        proof {
            reveal(Seq::filter);
            assert(all.take(0) =~= Seq::<usize>::empty());
            assert(all.take(0).filter(pred) =~= Seq::<usize>::empty());
        }
        while i < self.columns.len()
            invariant
                i <= self@.len(),
                out@ == all.take(i as int).filter(pred),
                forall|k: int| 0 <= k < out@.len() ==> (#[trigger] out@[k]) < self@.len(),
            decreases self@.len() - i,
        {
            let mut found = false;
            let mut k: usize = 0;
            while k < pos.len()
                invariant
                    k <= pos@.len(),
                    found == exists|j: int| 0 <= j < k && pos@[j] == i,
                decreases pos@.len() - k,
            {
                if pos[k] == i {
                    found = true;
                }
                k = k + 1;
            }
            proof {
                assert(found == pos@.contains(i));
                assert(all.take(i + 1) =~= all.take(i as int).push(i));
                Seq::lemma_filter_push(all.take(i as int), i, pred);
            }
            if !found {
                out.push(i);
            }
            i = i + 1;
        }
        proof {
            assert(all.take(self@.len() as int) =~= all);
        }
        out
    }

    /// This schema with the referenced fields renamed. Every reference
    /// resolves against the schema as it was before any renaming.
    #[verifier::loop_isolation(false)]
    pub fn rename(&self, change: &[(ColumnName, &str)]) -> (r: Schema)
        requires
            forall|k: int|
                0 <= k < change@.len() ==> resolves(self@, (#[trigger] change@[k]).0@),
        ensures
            r@ == rename_all(self@, Seq::new(change@.len(), |k: int| (change@[k].0@, change@[k].1@))),
    {
        let ghost changes = Seq::new(change@.len(), |k: int| (change@[k].0@, change@[k].1@));
        let mut out = self.clone();
        let mut k: usize = 0;
        proof {
            assert(rename_all(self@, changes.take(0)) =~= self@);
        }
        while k < change.len()
            invariant
                k <= change@.len(),
                out@ == rename_all(self@, changes.take(k as int)),
                out@.len() == self@.len(),
                forall|j: int| 0 <= j < self@.len() ==> (#[trigger] out@[j]).kind == self@[j].kind,
            decreases change@.len() - k,
        {
            let p = self.resolve_pos(&change[k].0);
            let kind = out.columns[p].kind;
            let new_name = change[k].1.to_owned();
            out.columns.set(p, Field { name: new_name, kind });
            proof {
                assert(changes.take(k + 1).drop_last() =~= changes.take(k as int));
                assert(out@ =~= rename_all(self@, changes.take(k as int)).update(
                    resolve_spec(self@, changes[k as int].0),
                    FieldV {
                        name: changes[k as int].1,
                        kind: rename_all(self@, changes.take(k as int))[resolve_spec(
                            self@,
                            changes[k as int].0,
                        )].kind,
                    },
                ));
            }
            k = k + 1;
        }
        proof {
            assert(changes.take(change@.len() as int) =~= changes);
        }
        out
    }

    /// This schema's fields followed by another's.
    pub fn extend(&self, other: Schema) -> (r: Schema)
        ensures
            r@ == self@ + other@,
    {
        let mut out = self.clone();
        let mut rest = other.columns;
        let ghost rest0 = rest@;
        out.columns.append(&mut rest);
        let r = Schema { columns: out.columns };
        proof {
            assert(r@ =~= self@ + other@);
        }
        r
    }

    /// The positions in `other` of the fields whose names do not appear in
    /// this schema, in increasing order: the columns a cross or join product
    /// takes from its right operand.
    #[verifier::loop_isolation(false)]
    pub fn join(&self, other: &Schema) -> (r: Vec<usize>)
        ensures
            r@ == Seq::new(other@.len(), |i: int| i as usize).filter(
                |p: usize| !contains_name(self@, other@[p as int].name),
            ),
            forall|k: int| 0 <= k < r@.len() ==> (#[trigger] r@[k]) < other@.len(),
    {
        let ghost all = Seq::new(other@.len(), |i: int| i as usize);
        let ghost pred = |p: usize| !contains_name(self@, other@[p as int].name);
        let mut out: Vec<usize> = Vec::new();
        let mut i: usize = 0;
        proof {
            reveal(Seq::filter);
            assert(all.take(0) =~= Seq::<usize>::empty());
            assert(all.take(0).filter(pred) =~= Seq::<usize>::empty());
        }
        while i < other.columns.len()
            invariant
                i <= other@.len(),
                out@ == all.take(i as int).filter(pred),
                forall|k: int| 0 <= k < out@.len() ==> (#[trigger] out@[k]) < other@.len(),
            decreases other@.len() - i,
        {
            let mut found = false;
            let mut k: usize = 0;
            while k < self.columns.len()
                invariant
                    k <= self@.len(),
                    i < other@.len(),
                    found == exists|j: int| 0 <= j < k && self@[j].name == other@[i as int].name,
                decreases self@.len() - k,
            {
                if self.columns[k].name == other.columns[i].name {
                    found = true;
                    proof {
                        assert(self@[k as int].name == other@[i as int].name);
                    }
                }
                k = k + 1;
            }
            proof {
                assert(found == contains_name(self@, other@[i as int].name));
                assert(all.take(i + 1) =~= all.take(i as int).push(i));
                Seq::lemma_filter_push(all.take(i as int), i, pred);
            }
            if !found {
                out.push(i);
            }
            i = i + 1;
        }
        proof {
            assert(all.take(other@.len() as int) =~= all);
        }
        out
    }

    /// A schema with one field per given kind, named by its decimal position.
    #[verifier::loop_isolation(false)]
    pub fn generate(types: &[DataType]) -> (r: Schema)
        ensures
            r@.len() == types@.len(),
            forall|i: int|
                0 <= i < types@.len() ==> (#[trigger] r@[i]).kind == types@[i] && r@[i].name
                    == dec_str(i as nat),
    {
        let mut out: Vec<Field> = Vec::new();
        let mut i: usize = 0;
        while i < types.len()
            invariant
                i <= types@.len(),
                out@.len() == i,
                forall|j: int|
                    0 <= j < i ==> (#[trigger] out@[j])@.kind == types@[j] && out@[j]@.name
                        == dec_str(j as nat),
            decreases types@.len() - i,
        {
            let name = usize_to_dec(i);
            out.push(Field { name, kind: types[i] });
            i = i + 1;
        }
        Schema { columns: out }
    }
}

/// The fields of `s` after applying each `(reference, new name)` change in
/// order; every reference resolves against the original schema `base`.
pub open spec fn rename_all(base: Seq<FieldV>, changes: Seq<(ColumnNameV, Seq<char>)>) -> Seq<
    FieldV,
>
    decreases changes.len(),
{
    if changes.len() == 0 {
        base
    } else {
        let prev = rename_all(base, changes.drop_last());
        let c = changes.last();
        let p = resolve_spec(base, c.0);
        prev.update(p, FieldV { name: c.1, kind: prev[p].kind })
    }
}

/// The decimal digits of `n`, most significant first.
pub open spec fn dec_str(n: nat) -> Seq<char>
    decreases n,
{
    if n < 10 {
        seq![digit_char(n)]
    } else {
        dec_str(n / 10).push(digit_char(n % 10))
    }
}

/// The character of one decimal digit.
pub open spec fn digit_char(d: nat) -> char {
    ((48 + d) as u8) as char
}

fn digit_str(d: usize) -> (r: &'static str)
    requires
        d < 10,
    ensures
        r@ == seq![digit_char(d as nat)],
{
    let r: &'static str = if d == 0 {
        proof {
            reveal_strlit("0");
        }
        "0"
    } else if d == 1 {
        proof {
            reveal_strlit("1");
        }
        "1"
    } else if d == 2 {
        proof {
            reveal_strlit("2");
        }
        "2"
    } else if d == 3 {
        proof {
            reveal_strlit("3");
        }
        "3"
    } else if d == 4 {
        proof {
            reveal_strlit("4");
        }
        "4"
    } else if d == 5 {
        proof {
            reveal_strlit("5");
        }
        "5"
    } else if d == 6 {
        proof {
            reveal_strlit("6");
        }
        "6"
    } else if d == 7 {
        proof {
            reveal_strlit("7");
        }
        "7"
    } else if d == 8 {
        proof {
            reveal_strlit("8");
        }
        "8"
    } else {
        proof {
            reveal_strlit("9");
        }
        "9"
    };
    proof {
        assert(r@ =~= seq![digit_char(d as nat)]);
    }
    r
}

/// The decimal rendering of a position.
pub fn usize_to_dec(n: usize) -> (r: String)
    ensures
        r@ == dec_str(n as nat),
    decreases n,
{
    if n < 10 {
        String::from_str(digit_str(n))
    } else {
        let mut s = usize_to_dec(n / 10);
        s.append(digit_str(n % 10));
        proof {
            assert(dec_str((n / 10) as nat) + seq![digit_char((n % 10) as nat)] =~= dec_str(
                n as nat,
            ));
        }
        s
    }
}

} // verus!
