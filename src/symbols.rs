//! Address-to-name resolution for diagnostics.
use vstd::prelude::*;
use vstd::string::StringExecFns;

verus! {

/// An address of the virtual machine's flat memory or code space.
pub type Address = u32;

/// The character of decimal digit `d`.
pub open spec fn digit_char(d: nat) -> char {
    "0123456789"@[d as int]
}

/// The decimal text of `n`, most significant digit first, without leading zeros.
pub open spec fn decimal(n: nat) -> Seq<char>
    decreases n,
{
    if n < 10 {
        seq![digit_char(n)]
    } else {
        decimal(n / 10).push(digit_char(n % 10))
    }
}

/// A name bound to an address.
#[derive(Debug, PartialEq, Eq, PartialOrd, Ord)]
pub struct Symbol {
    value: Address,
    name: String,
}

impl Symbol {
    pub closed spec fn spec_value(&self) -> Address {
        self.value
    }

    pub closed spec fn spec_name(&self) -> Seq<char> {
        self.name@
    }

    pub fn new(value: Address, name: &str) -> (r: Symbol)
        ensures
            r.spec_value() == value,
            r.spec_name() == name@,
    {
        Symbol { value, name: String::from_str(name) }
    }

    #[must_use]
    pub fn value(&self) -> (r: Address)
        ensures
            r == self.spec_value(),
    {
        self.value
    }

    #[must_use]
    pub fn name(&self) -> (r: &str)
        ensures
            r@ == self.spec_name(),
    {
        self.name.as_str()
    }
}

fn digit_str(d: u32) -> (r: &'static str)
    requires
        d < 10,
    ensures
        r@ == seq![digit_char(d as nat)],
{
    proof {
        reveal_strlit("0123456789");
    }
    let r = match d {
        0 => "0",
        1 => "1",
        2 => "2",
        3 => "3",
        4 => "4",
        5 => "5",
        6 => "6",
        7 => "7",
        8 => "8",
        _ => "9",
    };
    proof {
        reveal_strlit("0");
        reveal_strlit("1");
        reveal_strlit("2");
        reveal_strlit("3");
        reveal_strlit("4");
        reveal_strlit("5");
        reveal_strlit("6");
        reveal_strlit("7");
        reveal_strlit("8");
        reveal_strlit("9");
    }
    assert(r@ =~= seq![digit_char(d as nat)]);
    r
}

/// Appends the decimal text of `n` to `s`.
fn append_decimal(s: &mut String, n: u32)
    ensures
        final(s)@ == old(s)@ + decimal(n as nat),
    decreases n,
{
    if n >= 10 {
        append_decimal(s, n / 10);
    }
    let d = digit_str(n % 10);
    s.append(d);
    assert(s@ =~= old(s)@ + decimal(n as nat));
}


/// `name`, the name of a symbol at `k`, as a location for address `a`:
/// with `+offset` appended when `a` lies past `k`.
pub open spec fn located(name: Seq<char>, k: Address, a: Address) -> Seq<char> {
    if k == a {
        name
    } else {
        name + seq!['+'] + decimal((a - k) as nat)
    }
}

/// `k` is the greatest key of `m` at or below `a`.
pub open spec fn is_floor(m: Map<Address, Seq<char>>, a: Address, k: Address) -> bool {
    &&& m.dom().contains(k)
    &&& k <= a
    &&& forall|j: Address| m.dom().contains(j) && j <= a ==> j <= k
}

/// What resolving address `a` against the table `m` yields: nothing when no
/// symbol lies at or below `a`; otherwise the nearest such symbol's name, with
/// the distance to it appended when it is not exact.
pub open spec fn resolve(m: Map<Address, Seq<char>>, a: Address) -> Option<Seq<char>> {
    if exists|k: Address| is_floor(m, a, k) {
        let k = choose|k: Address| is_floor(m, a, k);
        Some(located(m[k], k, a))
    } else {
        None
    }
}

/// The table that inserting `s` in order into an empty table gives; a later
/// entry replaces an earlier one at the same address.
pub open spec fn insert_all(s: Seq<(Address, Seq<char>)>) -> Map<Address, Seq<char>>
    decreases s.len(),
{
    if s.len() == 0 {
        Map::empty()
    } else {
        insert_all(s.drop_last()).insert(s.last().0, s.last().1)
    }
}

/// The (address, name) pairs of a sequence of symbols.
pub open spec fn pairs(s: Seq<Symbol>) -> Seq<(Address, Seq<char>)> {
    s.map_values(|y: Symbol| (y.spec_value(), y.spec_name()))
}

/// In `s`, entries at the same address are the same entry.
pub open spec fn unique_keys(s: Seq<(Address, Seq<char>)>) -> bool {
    forall|i: int, j: int| 0 <= i < s.len() && 0 <= j < s.len() && s[i].0 == s[j].0 ==> s[i] == s[j]
}

proof fn lemma_insert_all_pairs(s: Seq<(Address, Seq<char>)>)
    requires
        unique_keys(s),
    ensures
        forall|k: Address, v: Seq<char>|
            #[trigger] insert_all(s).contains_pair(k, v) <==> s.contains((k, v)),
    decreases s.len(),
{
    if s.len() > 0 {
        let p = s.drop_last();
        assert(unique_keys(p));
        lemma_insert_all_pairs(p);
        assert(insert_all(s) == insert_all(p).insert(s.last().0, s.last().1));
        assert forall|k: Address, v: Seq<char>|
            #[trigger] insert_all(s).contains_pair(k, v) <==> s.contains((k, v)) by {
            if s.contains((k, v)) {
                let i = choose|i: int| 0 <= i < s.len() && s[i] == (k, v);
                if i < s.len() - 1 {
                    assert(p[i] == (k, v));
                    assert(p.contains((k, v)));
                    assert(insert_all(p).contains_pair(k, v));
                    if k == s.last().0 {
                        assert(s[s.len() - 1] == s[i]);
                    }
                }
            }
            if insert_all(s).contains_pair(k, v) && k != s.last().0 {
                assert(insert_all(p).contains_pair(k, v));
                assert(p.contains((k, v)));
                let i = choose|i: int| 0 <= i < p.len() && p[i] == (k, v);
                assert(s[i] == (k, v));
            }
            if k == s.last().0 && insert_all(s).contains_pair(k, v) {
                assert(s[s.len() - 1] == (k, v));
                assert(s.contains((k, v)));
            }
        }
    }
}

/// Order does not matter: inserting the same symbols, at distinct addresses,
/// in any order gives the same resolution for every address.
pub proof fn lemma_order_independent(
    s1: Seq<(Address, Seq<char>)>,
    s2: Seq<(Address, Seq<char>)>,
    a: Address,
)
    requires
        unique_keys(s1),
        s1.to_set() == s2.to_set(),
    ensures
        resolve(insert_all(s1), a) == resolve(insert_all(s2), a),
{
    assert forall|i: int, j: int|
        0 <= i < s2.len() && 0 <= j < s2.len() && s2[i].0 == s2[j].0 implies s2[i] == s2[j] by {
        assert(s2.to_set().contains(s2[i]));
        assert(s2.to_set().contains(s2[j]));
        assert(s1.contains(s2[i]));
        assert(s1.contains(s2[j]));
    }
    lemma_insert_all_pairs(s1);
    lemma_insert_all_pairs(s2);
    let m1 = insert_all(s1);
    let m2 = insert_all(s2);
    assert forall|k: Address, v: Seq<char>| m1.contains_pair(k, v) <==> m2.contains_pair(k, v) by {
        assert(s1.contains((k, v)) <==> s1.to_set().contains((k, v)));
        assert(s2.contains((k, v)) <==> s2.to_set().contains((k, v)));
    }
    assert forall|k: Address| m1.dom().contains(k) <==> m2.dom().contains(k) by {
        if m1.dom().contains(k) {
            assert(m1.contains_pair(k, m1[k]));
        }
        if m2.dom().contains(k) {
            assert(m2.contains_pair(k, m2[k]));
        }
    }
    assert forall|k: Address| m1.dom().contains(k) implies m1[k] == m2[k] by {
        assert(m1.contains_pair(k, m1[k]));
    }
    assert(m1 =~= m2);
}

/// An empty table resolves no address.
pub proof fn lemma_empty_resolves_nothing(a: Address)
    ensures
        resolve(Map::empty(), a) is None,
{
}

/// A table of one symbol at `k` resolves no address below `k`, and every
/// other address to the symbol's name, suffixed with the distance past `k`.
pub proof fn lemma_single_symbol(k: Address, name: Seq<char>, a: Address)
    ensures
        a < k ==> resolve(map![k => name], a) is None,
        k <= a ==> resolve(map![k => name], a) == Some(located(name, k, a)),
        resolve(map![k => name], k) == Some(name),
{
    let m = map![k => name];
    if k <= a {
        assert(is_floor(m, a, k));
        let c = choose|c: Address| is_floor(m, a, c);
        assert(c == k);
    }
    assert(is_floor(m, k, k));
}

/// Symbols keyed by address, at most one per address, resolved by nearest
/// address at or below a query.
#[derive(Debug)]
pub struct SymbolMap {
    symbols: Vec<Symbol>,
}

impl View for SymbolMap {
    type V = Map<Address, Seq<char>>;

    closed spec fn view(&self) -> Map<Address, Seq<char>> {
        Map::new(
            |k: Address| exists|i: int| 0 <= i < self.symbols.len() && self.symbols[i].value == k,
            |k: Address|
                self.symbols[choose|i: int|
                    0 <= i < self.symbols.len() && self.symbols[i].value == k].name@,
        )
    }
}

impl Default for SymbolMap {
    fn default() -> (r: SymbolMap)
        ensures
            r.wf(),
            r@ == Map::<Address, Seq<char>>::empty(),
    {
        SymbolMap::new()
    }
}

impl SymbolMap {
    /// The symbols are held in strictly increasing order of address.
    pub closed spec fn wf(&self) -> bool {
        forall|i: int, j: int|
            0 <= i < j < self.symbols.len() ==> self.symbols[i].value < self.symbols[j].value
    }

    proof fn lemma_at(&self, i: int)
        requires
            self.wf(),
            0 <= i < self.symbols.len(),
        ensures
            self@.dom().contains(self.symbols[i].value),
            self@[self.symbols[i].value] == self.symbols[i].name@,
    {
        let k = self.symbols[i].value;
        assert(exists|i: int| 0 <= i < self.symbols.len() && self.symbols[i].value == k);
        let c = choose|c: int| 0 <= c < self.symbols.len() && self.symbols[c].value == k;
        assert(c == i);
    }

    #[must_use]
    pub fn new() -> (r: SymbolMap)
        ensures
            r.wf(),
            r@ == Map::<Address, Seq<char>>::empty(),
    {
        let r = SymbolMap { symbols: Vec::new() };
        assert(r@ =~= Map::<Address, Seq<char>>::empty());
        r
    }

    /// Adds `symbol`, replacing any symbol already at its address.
    pub fn insert(&mut self, symbol: Symbol)
        requires
            old(self).wf(),
        ensures
            final(self).wf(),
            final(self)@ == old(self)@.insert(symbol.spec_value(), symbol.spec_name()),
    {
        let k = symbol.value;
        let ghost n = symbol.name@;
        let mut i: usize = 0;
        while i < self.symbols.len() && self.symbols[i].value < k
            invariant
                i <= self.symbols.len(),
                forall|j: int| 0 <= j < i ==> self.symbols[j].value < k,
            decreases self.symbols.len() - i,
        {
            i = i + 1;
        }
        let ghost pre = *self;
        if i < self.symbols.len() && self.symbols[i].value == k {
            self.symbols.set(i, symbol);
        } else {
            self.symbols.insert(i, symbol);
        }
        assert(self.wf());
        assert forall|a: Address| #[trigger] self@.dom().contains(a)
            <==> pre@.insert(k, n).dom().contains(a) by {
            if self@.dom().contains(a) {
                let c = choose|c: int| 0 <= c < self.symbols.len() && self.symbols[c].value == a;
                if a != k {
                    if c < i {
                        pre.lemma_at(c);
                    } else {
                        if self.symbols.len() > pre.symbols.len() {
                            pre.lemma_at(c - 1);
                        } else {
                            pre.lemma_at(c);
                        }
                    }
                }
            }
            if pre@.dom().contains(a) && a != k {
                let c = choose|c: int| 0 <= c < pre.symbols.len() && pre.symbols[c].value == a;
                if c < i {
                    self.lemma_at(c);
                } else {
                    if self.symbols.len() > pre.symbols.len() {
                        self.lemma_at(c + 1);
                    } else {
                        self.lemma_at(c);
                    }
                }
            }
            if a == k {
                self.lemma_at(i as int);
            }
        }
        assert forall|a: Address| #[trigger] self@.dom().contains(a)
            implies self@[a] == pre@.insert(k, n)[a] by {
            let c = choose|c: int| 0 <= c < self.symbols.len() && self.symbols[c].value == a;
            self.lemma_at(c);
            if a != k {
                if c < i {
                    pre.lemma_at(c);
                } else {
                    if self.symbols.len() > pre.symbols.len() {
                        pre.lemma_at(c - 1);
                    } else {
                        pre.lemma_at(c);
                    }
                }
            } else {
                self.lemma_at(i as int);
            }
        }
        assert(self@ =~= pre@.insert(k, n));
    }

    /// Builds a table from `symbols` inserted in order; a later symbol replaces
    /// an earlier one at the same address.
    pub fn with_symbols(symbols: Vec<Symbol>) -> (r: SymbolMap)
        ensures
            r.wf(),
            r@ == insert_all(pairs(symbols@)),
    {
        let mut me = SymbolMap::new();
        let mut symbols = symbols;
        let ghost all = symbols@;
        let n: usize = symbols.len();
        let mut taken: usize = 0;
        while symbols.len() > 0
            invariant
                n == all.len(),
                me.wf(),
                taken + symbols.len() == all.len(),
                symbols@ == all.skip(taken as int),
                me@ == insert_all(pairs(all.take(taken as int))),
            decreases symbols.len(),
        {
            let s = symbols.remove(0);
            assert(s == all[taken as int]);
            assert(symbols@ =~= all.skip(taken + 1));
            assert(pairs(all.take(taken + 1)).drop_last() =~= pairs(all.take(taken as int)));
            me.insert(s);
            taken = taken + 1;
        }
        assert(all.take(taken as int) =~= all);
        me
    }

    /// Resolves `address` to the nearest symbol at or below it: its name when
    /// exact, `name+offset` otherwise, nothing when no symbol lies at or below.
    #[must_use]
    pub fn symbol_name(&self, address: Address) -> (r: Option<String>)
        requires
            self.wf(),
        ensures
            r matches Some(s) ==> resolve(self@, address) == Some(s@),
            r is None ==> resolve(self@, address) is None,
    {
        let mut i: usize = 0;
        while i < self.symbols.len() && self.symbols[i].value <= address
            invariant
                i <= self.symbols.len(),
                forall|j: int| 0 <= j < i ==> self.symbols[j].value <= address,
            decreases self.symbols.len() - i,
        {
            i = i + 1;
        }
        if i == 0 {
            proof {
                assert forall|k: Address| !is_floor(self@, address, k) by {
                    if is_floor(self@, address, k) {
                        let c = choose|c: int|
                            0 <= c < self.symbols.len() && self.symbols[c].value == k;
                        assert(self.symbols[0].value <= self.symbols[c].value);
                    }
                }
            }
            None
        } else {
            let s = &self.symbols[i - 1];
            let k = s.value;
            proof {
                self.lemma_at(i - 1);
                assert forall|j: Address| self@.dom().contains(j) && j <= address implies j <= k by {
                    let c = choose|c: int|
                        0 <= c < self.symbols.len() && self.symbols[c].value == j;
                    if c >= i {
                        assert(self.symbols[c].value > address) by {
                            if c > i {
                                assert(self.symbols[i as int].value < self.symbols[c].value);
                            }
                        }
                    }
                }
                assert(is_floor(self@, address, k));
                let kk = choose|kk: Address| is_floor(self@, address, kk);
                assert(kk == k);
            }
            let mut out = String::from_str(s.name.as_str());
            if k != address {
                out.append("+");
                proof {
                    reveal_strlit("+");
                }
                append_decimal(&mut out, address - k);
            }
            Some(out)
        }
    }
}

} // verus!
