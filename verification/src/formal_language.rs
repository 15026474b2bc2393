//! The symbol and rule model of an augmented context-free grammar.
//!
//! A symbol is a 16-bit identifier.  Inside one grammar, non-terminal ids
//! occupy `[0, N)` and terminal ids `[N, N + T)`, where `N` is the number of
//! non-terminals.  Four identifiers are reserved by the augmented-grammar
//! convention: `ERR_NON_TERM = 0` and `START = 1` in the non-terminal range,
//! `ERR_TERM = N` and `END = N + 1` in the terminal range.

use vstd::prelude::*;

verus! {

/// Two characters are equal exactly when their code points are.
proof fn lemma_char_cast_distinct(a: char, b: char)
    ensures
        (a == b) == ((a as u32) == (b as u32)),
{
    if (a as u32) == (b as u32) {
        vstd::utf8::char_u32_cast(a, a as u32);
        vstd::utf8::char_u32_cast(b, b as u32);
    }
}

/// A character set: sorted, without duplicates, mapping characters to the
/// dense id range `[0, size)`.
pub struct Alphabet {
    chars: Vec<char>,
}

impl View for Alphabet {
    type V = Seq<char>;

    closed spec fn view(&self) -> Seq<char> {
        self.chars@
    }
}

impl Alphabet {
    /// The characters are strictly ascending, hence free of duplicates.
    pub open spec fn wf(&self) -> bool {
        forall|i: int, j: int| 0 <= i < j < self@.len() ==> (self@[i] as u32) < (self@[j] as u32)
    }

    /// Build the alphabet of the given characters: sorted, duplicates
    /// collapsed.
    pub fn new(chars: Vec<char>) -> (r: Self)
        ensures
            r.wf(),
            forall|c: char| r@.contains(c) <==> chars@.contains(c),
    {
        let mut sorted: Vec<char> = Vec::new();
        let mut k: usize = 0;
        while k < chars.len()
            invariant
                k <= chars@.len(),
                forall|i: int, j: int|
                    0 <= i < j < sorted@.len() ==> (sorted@[i] as u32) < (sorted@[j] as u32),
                forall|c: char| sorted@.contains(c) <==> chars@.subrange(0, k as int).contains(c),
            decreases chars@.len() - k,
        {
            let c: char = chars[k];
            let ghost prev = sorted@;
            // Find the insertion point: the first position holding a
            // character at or above `c`.
            let mut pos: usize = 0;
            while pos < sorted.len() && (sorted[pos] as u32) < (c as u32)
                invariant
                    pos <= sorted@.len(),
                    forall|i: int, j: int|
                        0 <= i < j < sorted@.len() ==> (sorted@[i] as u32) < (sorted@[j] as u32),
                    forall|i: int| 0 <= i < pos ==> (sorted@[i] as u32) < (c as u32),
                decreases sorted@.len() - pos,
            {
                pos = pos + 1;
            }
            if pos == sorted.len() || (sorted[pos] as u32) > (c as u32) {
                sorted.insert(pos, c);
                proof {
                    prev.insert_ensures(pos as int, c);
                    assert forall|i: int, j: int|
                        0 <= i < j < sorted@.len() implies (sorted@[i] as u32) < (
                    sorted@[j] as u32) by {
                        if i < pos && j == pos {
                            assert(sorted@[i] == prev[i]);
                        } else if i == pos && j > pos {
                            assert(sorted@[j] == prev[j - 1]);
                            assert((prev[pos as int] as u32) > (c as u32) || pos == prev.len());
                            assert((prev[j - 1] as u32) >= (prev[pos as int] as u32));
                        }
                    }
                    assert forall|x: char| sorted@.contains(x) implies (prev.contains(x) || x
                        == c) by {
                        let idx: int = choose|idx: int| 0 <= idx < sorted@.len() && sorted@[idx] == x;
                        if idx < pos {
                            assert(prev[idx] == x);
                        } else if idx > pos {
                            assert(prev[idx - 1] == x);
                        }
                    }
                    assert forall|x: char| (prev.contains(x) || x == c) implies sorted@.contains(
                        x,
                    ) by {
                        if x == c {
                            assert(sorted@[pos as int] == c);
                        } else {
                            let idx: int = choose|idx: int| 0 <= idx < prev.len() && prev[idx] == x;
                            if idx < pos {
                                assert(sorted@[idx] == x);
                            } else {
                                assert(sorted@[idx + 1] == x);
                            }
                        }
                    }
                }
            } else {
                proof {
                    lemma_char_cast_distinct(sorted@[pos as int], c);
                    assert(sorted@[pos as int] == c);
                    assert(sorted@.contains(c));
                }
            }
            k = k + 1;
            proof {
                let ghost longer = chars@.subrange(0, k as int);
                let ghost shorter = chars@.subrange(0, k as int - 1);
                assert forall|c2: char|
                    longer.contains(c2) implies (shorter.contains(c2) || c2 == chars@[k as int
                    - 1]) by {
                    let idx: int = choose|idx: int| 0 <= idx < longer.len() && longer[idx] == c2;
                    if idx < k - 1 {
                        assert(shorter[idx] == c2);
                    }
                }
                assert forall|c2: char|
                    (shorter.contains(c2) || c2 == chars@[k as int - 1]) implies longer.contains(
                    c2,
                ) by {
                    if c2 == chars@[k as int - 1] {
                        assert(longer[k as int - 1] == c2);
                    } else {
                        let idx: int = choose|idx: int|
                            0 <= idx < shorter.len() && shorter[idx] == c2;
                        assert(longer[idx] == c2);
                    }
                }
                assert(c == chars@[k as int - 1]);
                assert forall|c2: char| sorted@.contains(c2) implies longer.contains(c2) by {
                    assert(prev.contains(c2) || c2 == c);
                }
                assert forall|c2: char| longer.contains(c2) implies sorted@.contains(c2) by {
                    assert(shorter.contains(c2) || c2 == c);
                    if shorter.contains(c2) {
                        assert(prev.contains(c2));
                    }
                }
            }
        }
        proof {
            assert(chars@.subrange(0, chars@.len() as int) =~= chars@);
        }
        Alphabet { chars: sorted }
    }

    /// The id of `c`, if `c` belongs to the alphabet: its position in the
    /// sorted character list, found by binary search.
    pub fn id(&self, c: char) -> (r: Option<usize>)
        requires
            self.wf(),
        ensures
            match r {
                Some(i) => i < self@.len() && self@[i as int] == c,
                None => !self@.contains(c),
            },
    {
        let mut lo: usize = 0;
        let mut hi: usize = self.chars.len();
        while lo < hi
            invariant
                self.wf(),
                lo <= hi <= self@.len(),
                forall|i: int| 0 <= i < lo ==> (self@[i] as u32) < (c as u32),
                forall|i: int| hi <= i < self@.len() ==> (self@[i] as u32) > (c as u32),
            decreases hi - lo,
        {
            let mid: usize = lo + (hi - lo) / 2;
            let x: char = self.chars[mid];
            if x == c {
                return Some(mid);
            } else if (x as u32) < (c as u32) {
                lo = mid + 1;
            } else {
                proof {
                    lemma_char_cast_distinct(x, c);
                }
                hi = mid;
            }
        }
        proof {
            assert forall|i: int| 0 <= i < self@.len() implies self@[i] != c by {
                lemma_char_cast_distinct(self@[i], c);
            }
        }
        None
    }

    /// The number of characters in the alphabet.
    pub fn size(&self) -> (r: usize)
        ensures
            r == self@.len(),
    {
        self.chars.len()
    }
}

/// An identifier naming one terminal or non-terminal of a grammar's flat
/// numbering space.  Equality is by id; a symbol carries no other state.
#[derive(Clone, Copy, PartialEq, Eq, Structural, Debug, Hash)]
pub struct Symbol {
    pub id: u16,
}

/// One lexed token: its symbol, the text it covers, and where that text
/// starts in the source.
#[derive(Debug)]
pub struct Token {
    pub token_type: Symbol,
    pub lexeme: String,
    pub line: usize,
    pub column: usize,
}

/// Line and column after reading `s` from position `(line, column)`: a
/// newline moves to the start of the next line, any other character moves one
/// column to the right.
pub open spec fn spec_next_position(line: int, column: int, s: Seq<char>) -> (int, int)
    decreases s.len(),
{
    if s.len() == 0 {
        (line, column)
    } else if s[0] == '\n' {
        spec_next_position(line + 1, 0, s.drop_first())
    } else {
        spec_next_position(line, column + 1, s.drop_first())
    }
}

impl Token {
    /// The line and column of the position right after this token.
    pub fn next_position(&self) -> (r: (usize, usize))
        requires
            self.line + self.lexeme@.len() <= usize::MAX,
            self.column + self.lexeme@.len() <= usize::MAX,
        ensures
            (r.0 as int, r.1 as int) == spec_next_position(
                self.line as int,
                self.column as int,
                self.lexeme@,
            ),
    {
        let mut line: usize = self.line;
        let mut column: usize = self.column;
        let len: usize = self.lexeme.as_str().unicode_len();
        let mut i: usize = 0;
        proof {
            assert(self.lexeme@.subrange(0, len as int) =~= self.lexeme@);
        }
        while i < len
            invariant
                len == self.lexeme@.len(),
                self.line + len <= usize::MAX,
                self.column + len <= usize::MAX,
                i <= len,
                line <= self.line + i,
                column <= self.column + i,
                spec_next_position(self.line as int, self.column as int, self.lexeme@)
                    == spec_next_position(
                    line as int,
                    column as int,
                    self.lexeme@.subrange(i as int, len as int),
                ),
            decreases len - i,
        {
            let c: char = self.lexeme.as_str().get_char(i);
            proof {
                assert(self.lexeme@.subrange(i as int, len as int).drop_first()
                    =~= self.lexeme@.subrange(i as int + 1, len as int));
                assert(self.lexeme@.subrange(i as int, len as int)[0] == c);
            }
            if c == '\n' {
                line = line + 1;
                column = 0;
            } else {
                column = column + 1;
            }
            i = i + 1;
        }
        proof {
            assert(self.lexeme@.subrange(len as int, len as int) =~= Seq::<char>::empty());
        }
        (line, column)
    }
}

/// An ordered set of human-readable symbol names: the name of local id `i`
/// stands at position `i`.
pub struct SymbolSet {
    representations: Vec<String>,
}

impl View for SymbolSet {
    type V = Seq<Seq<char>>;

    closed spec fn view(&self) -> Seq<Seq<char>> {
        self.representations.deep_view()
    }
}

impl SymbolSet {
    /// Local ids are 16-bit values, so a symbol set never holds more names
    /// than fit that range.
    pub open spec fn wf(&self) -> bool {
        self@.len() <= u16::MAX
    }

    pub fn new(representations: Vec<String>) -> (r: Self)
        requires
            representations@.len() <= u16::MAX,
        ensures
            r.wf(),
            r@ == representations.deep_view(),
    {
        Self { representations }
    }

    /// The number of names, which is also one past the largest local id.
    pub fn size(&self) -> (r: u16)
        requires
            self.wf(),
        ensures
            r == self@.len(),
    {
        self.representations.len() as u16
    }

    /// The name of local id `local_id`.
    pub fn get_representation(&self, local_id: u16) -> (r: &String)
        requires
            local_id < self@.len(),
        ensures
            r@ == self@[local_id as int],
    {
        &self.representations[local_id as usize]
    }

    /// The local id carrying the given name, if any: a linear scan, kept as
    /// a debug-only convenience rather than a hot path.
    pub fn get_id(&self, representation: &str) -> (r: Option<u16>)
        requires
            self.wf(),
        ensures
            match r {
                Some(i) => i < self@.len() && self@[i as int] == representation@ && (forall|j: int|
                    0 <= j < i ==> self@[j] != representation@),
                None => forall|j: int| 0 <= j < self@.len() ==> self@[j] != representation@,
            },
    {
        let target: String = representation.to_owned();
        let mut i: usize = 0;
        while i < self.representations.len()
            invariant
                self.wf(),
                target@ == representation@,
                i <= self@.len(),
                self.representations@.len() == self@.len(),
                forall|j: int| 0 <= j < i ==> self@[j] != representation@,
            decreases self@.len() - i,
        {
            if self.representations[i] == target {
                return Some(i as u16);
            }
            i = i + 1;
        }
        None
    }
}

/// A failure to build a grammar, naming the offending rule data.
#[derive(Debug, Clone, PartialEq)]
pub enum CfgError {
    /// The rule's origin id is not a valid non-terminal id.
    InvalidRuleOrigin { rule: CfgRule },
    /// The rule's replacement references an id outside the grammar's symbol
    /// range.
    InvalidRuleReplacement { rule: CfgRule, symbol: Symbol },
}

/// The two name sets of one augmented grammar: terminal names and
/// non-terminal names, each indexed by local id.
pub struct CfgSymbolSet {
    terminals: SymbolSet,
    non_terminals: SymbolSet,
}

impl CfgSymbolSet {
    /// The terminal names, by local id.
    pub closed spec fn spec_terminals(&self) -> Seq<Seq<char>> {
        self.terminals@
    }

    /// The non-terminal names, by local id.
    pub closed spec fn spec_non_terminals(&self) -> Seq<Seq<char>> {
        self.non_terminals@
    }

    /// Both ranges carry their two reserved symbols, and the flat numbering
    /// space fits 16-bit ids.
    pub open spec fn wf(&self) -> bool {
        &&& self.spec_non_terminals().len() >= 2
        &&& self.spec_terminals().len() >= 2
        &&& self.spec_non_terminals().len() + self.spec_terminals().len() <= u16::MAX
    }

    pub fn new(terminals: SymbolSet, non_terminals: SymbolSet) -> (r: CfgSymbolSet)
        requires
            terminals.wf(),
            non_terminals.wf(),
            terminals@.len() >= 2,
            non_terminals@.len() >= 2,
            non_terminals@.len() + terminals@.len() <= u16::MAX,
        ensures
            r.wf(),
            r.spec_terminals() == terminals@,
            r.spec_non_terminals() == non_terminals@,
    {
        CfgSymbolSet { terminals, non_terminals }
    }

    /// Build the symbol sets of an augmented grammar from plain name lists:
    /// the reserved names `ERR_NON_TERM` and `START` head the non-terminal
    /// range, `ERR_TERM` and `END` head the terminal range, and the given
    /// names follow in their given order.
    pub fn new_augmented(terminals: Vec<String>, non_terminals: Vec<String>) -> (r: CfgSymbolSet)
        requires
            non_terminals@.len() + terminals@.len() + 4 <= u16::MAX,
        ensures
            r.wf(),
            r.spec_non_terminals().len() == non_terminals@.len() + 2,
            r.spec_terminals().len() == terminals@.len() + 2,
            r.spec_non_terminals()[0] == "ERR_NON_TERM"@,
            r.spec_non_terminals()[1] == "START"@,
            forall|i: int|
                0 <= i < non_terminals@.len() ==> r.spec_non_terminals()[i + 2]
                    == (#[trigger] non_terminals@[i])@,
            r.spec_terminals()[0] == "ERR_TERM"@,
            r.spec_terminals()[1] == "END"@,
            forall|i: int|
                0 <= i < terminals@.len() ==> r.spec_terminals()[i + 2] == (
                #[trigger] terminals@[i])@,
    {
        let mut non_terminal_names: Vec<String> = Vec::new();
        non_terminal_names.push(String::from_str("ERR_NON_TERM"));
        non_terminal_names.push(String::from_str("START"));
        let mut rest_nt: Vec<String> = non_terminals;
        non_terminal_names.append(&mut rest_nt);
        let mut terminal_names: Vec<String> = Vec::new();
        terminal_names.push(String::from_str("ERR_TERM"));
        terminal_names.push(String::from_str("END"));
        let mut rest_t: Vec<String> = terminals;
        terminal_names.append(&mut rest_t);
        let r = CfgSymbolSet::new(
            SymbolSet::new(terminal_names),
            SymbolSet::new(non_terminal_names),
        );
        r
    }

    /// Terminal ids start right after the non-terminal ids.
    pub fn offset_terminals(&self) -> (r: u16)
        requires
            self.wf(),
        ensures
            r == self.spec_non_terminals().len(),
    {
        self.non_terminals.size()
    }

    pub fn get_terminals(&self) -> (r: &SymbolSet)
        ensures
            r@ == self.spec_terminals(),
    {
        &self.terminals
    }

    pub fn get_non_terminals(&self) -> (r: &SymbolSet)
        ensures
            r@ == self.spec_non_terminals(),
    {
        &self.non_terminals
    }

    /// The reserved start symbol of the augmented grammar.
    #[allow(non_snake_case)]
    pub fn START(&self) -> (r: Symbol)
        ensures
            r.id == 1,
    {
        Symbol { id: 1 }
    }

    /// The reserved end-of-input terminal.
    #[allow(non_snake_case)]
    pub fn END(&self) -> (r: Symbol)
        requires
            self.wf(),
        ensures
            r.id == self.spec_non_terminals().len() + 1,
    {
        Symbol { id: self.offset_terminals() + 1 }
    }

    /// The reserved error non-terminal.
    #[allow(non_snake_case)]
    pub fn ERR_NON_TERM(&self) -> (r: Symbol)
        ensures
            r.id == 0,
    {
        Symbol { id: 0 }
    }

    /// The reserved error terminal.
    #[allow(non_snake_case)]
    pub fn ERR_TERM(&self) -> (r: Symbol)
        requires
            self.wf(),
        ensures
            r.id == self.spec_non_terminals().len(),
    {
        Symbol { id: self.offset_terminals() }
    }

    /// The symbol carrying the given name: the four reserved names map to
    /// the reserved symbols, any other name is looked up among the
    /// non-terminals first and the terminals second.  A debug-only
    /// convenience: the name must be present.
    pub fn get_symbol_by_representation(&self, representation: &str) -> (r: Symbol)
        requires
            self.wf(),
            representation@ == "START"@ || representation@ == "END"@ || representation@
                == "ERR_TERM"@ || representation@ == "ERR_NON_TERM"@ || self.spec_non_terminals(
            ).contains(representation@) || self.spec_terminals().contains(representation@),
        ensures
            representation@ == "START"@ ==> r.id == 1,
            representation@ == "END"@ ==> r.id == self.spec_non_terminals().len() + 1,
            representation@ == "ERR_TERM"@ ==> r.id == self.spec_non_terminals().len(),
            representation@ == "ERR_NON_TERM"@ ==> r.id == 0,
            (representation@ != "START"@ && representation@ != "END"@ && representation@
                != "ERR_TERM"@ && representation@ != "ERR_NON_TERM"@) ==> if self
                .spec_non_terminals().contains(representation@) {
                r.id < self.spec_non_terminals().len() && self.spec_non_terminals()[r.id as int]
                    == representation@
            } else {
                self.spec_non_terminals().len() <= r.id && r.id < self.spec_non_terminals().len()
                    + self.spec_terminals().len() && self.spec_terminals()[r.id as int - self
                    .spec_non_terminals().len()] == representation@
            },
    {
        proof {
            reveal_strlit("START");
            reveal_strlit("END");
            reveal_strlit("ERR_TERM");
            reveal_strlit("ERR_NON_TERM");
            // The four reserved names have pairwise distinct lengths.
            assert("START"@.len() == 5);
            assert("END"@.len() == 3);
            assert("ERR_TERM"@.len() == 8);
            assert("ERR_NON_TERM"@.len() == 12);
        }
        let target: String = representation.to_owned();
        if target == String::from_str("START") {
            self.START()
        } else if target == String::from_str("END") {
            self.END()
        } else if target == String::from_str("ERR_TERM") {
            self.ERR_TERM()
        } else if target == String::from_str("ERR_NON_TERM") {
            self.ERR_NON_TERM()
        } else {
            match self.non_terminals.get_id(representation) {
                Some(non_terminal_id) => Symbol { id: non_terminal_id },
                None => {
                    proof {
                        assert forall|j: int|
                            0 <= j < self.spec_non_terminals().len() implies self
                            .spec_non_terminals()[j] != representation@ by {
                        }
                        assert(!self.spec_non_terminals().contains(representation@));
                    }
                    let terminal_id: u16 = match self.terminals.get_id(representation) {
                        Some(id) => id,
                        None => {
                            proof {
                                assert(!self.spec_terminals().contains(representation@));
                            }
                            // Unreachable: the name is required to be present.
                            assert(false);
                            0
                        },
                    };
                    Symbol { id: terminal_id + self.offset_terminals() }
                },
            }
        }
    }
}

/// One grammar rule: a non-terminal origin and the ordered word replacing
/// it.  An empty replacement denotes an epsilon rule.
#[derive(Debug, Clone, PartialEq)]
pub struct CfgRule {
    pub origin: Symbol,
    pub replacement: Vec<Symbol>,
}

impl CfgRule {
    /// True iff the replacement is empty, that is, iff this is an epsilon
    /// rule.
    pub fn is_empty(&self) -> (r: bool)
        ensures
            r == (self.replacement@.len() == 0),
    {
        self.replacement.len() == 0
    }

    /// The number of symbols in the replacement.
    pub fn replacement_size(&self) -> (r: usize)
        ensures
            r == self.replacement@.len(),
    {
        self.replacement.len()
    }
}

} // verus!
