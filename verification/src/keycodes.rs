use vstd::prelude::*;

verus! {

/// The table of key names and the virtual-key codes they stand for, in the
/// order in which the table is walked.
pub struct KeycodeTable {
    entries: Vec<(String, u16)>,
}

impl KeycodeTable {
    /// The names of the table, in order.
    pub closed spec fn names(&self) -> Seq<Seq<char>> {
        self.entries@.map_values(|e: (String, u16)| e.0@)
    }

    /// The codes of the table, in order.
    pub closed spec fn codes(&self) -> Seq<u16> {
        self.entries@.map_values(|e: (String, u16)| e.1)
    }

    /// Whether `name` is a key name of the table.
    pub open spec fn has_name(&self, name: Seq<char>) -> bool {
        self.names().contains(name)
    }

    /// Whether `code` is a key code of the table.
    pub open spec fn has_code(&self, code: u16) -> bool {
        self.codes().contains(code)
    }

    /// Index `i` is the first entry of the table whose code is `code`.
    pub open spec fn is_first_with_code(&self, code: u16, i: int) -> bool {
        &&& 0 <= i < self.codes().len()
        &&& self.codes()[i] == code
        &&& forall|j: int| 0 <= j < i ==> self.codes()[j] != code
    }

    /// The name of the first entry whose code is `code`.
    pub open spec fn name_of(&self, code: u16) -> Seq<char> {
        self.names()[choose|i: int| self.is_first_with_code(code, i)]
    }

    /// The table with the given entries, in the given order.
    pub fn new(entries: Vec<(String, u16)>) -> (r: Self)
        ensures
            r.names() == entries@.map_values(|e: (String, u16)| e.0@),
            r.codes() == entries@.map_values(|e: (String, u16)| e.1),
    {
        KeycodeTable { entries }
    }

    /// The number of entries.
    pub fn len(&self) -> (r: usize)
        ensures
            r == self.names().len(),
            r == self.codes().len(),
    {
        self.entries.len()
    }

    /// The name of entry `i`.
    pub fn name_at(&self, i: usize) -> (r: &String)
        requires
            i < self.names().len(),
        ensures
            r@ == self.names()[i as int],
    {
        &self.entries[i].0
    }

    /// The code of entry `i`.
    pub fn code_at(&self, i: usize) -> (r: u16)
        requires
            i < self.codes().len(),
        ensures
            r == self.codes()[i as int],
    {
        self.entries[i].1
    }

    /// Whether `name` is a key name of the table.
    pub fn contains_name(&self, name: &String) -> (r: bool)
        ensures
            r == self.has_name(name@),
    {
        let n = self.entries.len();
        let mut i: usize = 0;
        while i < n
            invariant
                n == self.names().len(),
                i <= n,
                forall|j: int| 0 <= j < i ==> self.names()[j] != name@,
            decreases n - i,
        {
            if self.entries[i].0 == *name {
                assert(self.names()[i as int] == name@);
                return true;
            }
            i = i + 1;
        }
        false
    }

    /// Whether `code` is a key code of the table.
    pub fn contains_code(&self, code: u16) -> (r: bool)
        ensures
            r == self.has_code(code),
    {
        match self.first_with_code(code) {
            Some(_) => true,
            None => false,
        }
    }

    /// The index of the first entry whose code is `code`, if there is one.
    pub fn first_with_code(&self, code: u16) -> (r: Option<usize>)
        ensures
            r matches Some(i) ==> self.is_first_with_code(code, i as int),
            r is None <==> !self.has_code(code),
    {
        let n = self.entries.len();
        let mut i: usize = 0;
        while i < n
            invariant
                n == self.codes().len(),
                i <= n,
                forall|j: int| 0 <= j < i ==> self.codes()[j] != code,
            decreases n - i,
        {
            if self.entries[i].1 == code {
                assert(self.codes()[i as int] == code);
                return Some(i);
            }
            i = i + 1;
        }
        None
    }

    /// The name of the first entry whose code is `code`.
    pub fn name_for(&self, code: u16) -> (r: &String)
        requires
            self.has_code(code),
        ensures
            r@ == self.name_of(code),
    {
        let i = self.first_with_code(code).unwrap();
        proof {
            self.lemma_first_unique(code, i as int);
        }
        &self.entries[i].0
    }

    /// There is one first entry with a code.
    pub proof fn lemma_first_unique(&self, code: u16, i: int)
        requires
            self.is_first_with_code(code, i),
        ensures
            (choose|k: int| self.is_first_with_code(code, k)) == i,
    {
        let k = choose|k: int| self.is_first_with_code(code, k);
        assert(self.is_first_with_code(code, k));
        if k < i {
            assert(self.codes()[k] != code);
        } else if k > i {
            assert(self.codes()[i] != code);
        }
    }

    /// A name is a key name of the table exactly when some entry, any entry,
    /// has that very name.
    pub proof fn lemma_has_name_exactly(&self, name: Seq<char>)
        ensures
            self.has_name(name) <==> exists|k: int|
                0 <= k < self.names().len() && #[trigger] self.names()[k] == name,
    {
        if self.has_name(name) {
            let k = choose|k: int| 0 <= k < self.names().len() && self.names()[k] == name;
            assert(self.names()[k] == name);
        }
    }

    /// The name of every entry, the last one included, is a key name of the table.
    pub proof fn lemma_entry_names_known(&self, k: int)
        requires
            0 <= k < self.names().len(),
        ensures
            self.has_name(self.names()[k]),
    {
        self.lemma_has_name_exactly(self.names()[k]);
    }

    /// A code is a key code of the table exactly when some entry, any entry,
    /// has that code.
    pub proof fn lemma_has_code_exactly(&self, code: u16)
        ensures
            self.has_code(code) <==> exists|k: int|
                0 <= k < self.codes().len() && #[trigger] self.codes()[k] == code,
    {
        if self.has_code(code) {
            let k = choose|k: int| 0 <= k < self.codes().len() && self.codes()[k] == code;
            assert(self.codes()[k] == code);
        }
    }

    /// The code of every entry, the last one included, is a key code of the table.
    pub proof fn lemma_entry_codes_known(&self, k: int)
        requires
            0 <= k < self.codes().len(),
        ensures
            self.has_code(self.codes()[k]),
    {
        self.lemma_has_code_exactly(self.codes()[k]);
    }

    proof fn lemma_first_exists(&self, code: u16, i: int)
        requires
            0 <= i < self.codes().len(),
            self.codes()[i] == code,
        ensures
            exists|f: int| self.is_first_with_code(code, f),
        decreases i,
    {
        if exists|j: int| 0 <= j < i && self.codes()[j] == code {
            let j = choose|j: int| 0 <= j < i && self.codes()[j] == code;
            self.lemma_first_exists(code, j);
        } else {
            assert(self.is_first_with_code(code, i));
        }
    }

    /// A code of the table is named by the first entry that has it: that
    /// entry's code is the code, and no entry before it has the code.
    pub proof fn lemma_name_of_first_entry(&self, code: u16)
        requires
            self.has_code(code),
        ensures
            exists|i: int|
                {
                    &&& 0 <= i < self.codes().len()
                    &&& self.codes()[i] == code
                    &&& #[trigger] self.names()[i] == self.name_of(code)
                    &&& forall|j: int| 0 <= j < i ==> self.codes()[j] != code
                },
    {
        self.lemma_has_code_exactly(code);
        let k = choose|k: int| 0 <= k < self.codes().len() && #[trigger] self.codes()[k] == code;
        self.lemma_first_exists(code, k);
        let f = choose|f: int| self.is_first_with_code(code, f);
        self.lemma_first_unique(code, f);
        assert(self.names()[f] == self.name_of(code));
    }
}

} // verus!
