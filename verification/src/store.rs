//! The entry store: a table from entry name to encrypted secret and
//! unencrypted metadata.
//!
//! Names are unique within a table.  Each secret is encrypted under the key
//! and nonce derived from its own passphrase; metadata stays readable without
//! any passphrase.  The table is modelled as a map from name to entry, and
//! every operation states exactly how it changes that map and when each
//! failure kind is returned.

use crate::codec::{
    encode_table, entries_fit, entry_fits, lemma_encode_entries_items_snoc,
    lemma_encode_parse_roundtrip, lemma_encode_strings_items_snoc, parse_table, push_bytes,
    push_string, push_u64, read_bytes, read_string, read_u64, spec_encode_entries_items,
    spec_encode_entry, spec_encode_strings_items, spec_encode_u64, spec_parse_entries_items,
    spec_parse_entry, spec_parse_strings, spec_parse_strings_items, spec_parse_u64, strings_fit,
};
use crate::crypto::{open_with, seal_with, MAX_PLAINTEXT_LEN};
use vstd::prelude::*;
use vstd::utf8::{decode_utf8, encode_utf8, valid_utf8};

verus! {

/// Failure kinds of the store.
#[derive(Debug, PartialEq, Eq, Structural, Clone, Copy)]
pub enum Error {
    /// An entry with the given name is already present.
    PassExists,
    /// No entry with the given name is present.
    PassNotFound,
    /// Tag verification failed during decryption: the passphrase is wrong.
    IncorrectPass,
    /// The cipher refused the payload, or the decrypted bytes are not text.
    AES,
    /// Persisted bytes do not decode to a table.
    BadFormat,
}

impl Error {
    /// A short description of the failure, for display by a caller.
    pub fn message(&self) -> (r: &'static str)
        ensures
            (self == Error::PassExists ==> r@ == "password already exists"@),
            (self == Error::PassNotFound ==> r@ == "password not found"@),
            (self == Error::IncorrectPass ==> r@ == "incorrect password"@),
            (self == Error::AES ==> r@ == "aes error"@),
            (self == Error::BadFormat ==> r@ == "bad format"@),
    {
        match self {
            Error::PassExists => "password already exists",
            Error::PassNotFound => "password not found",
            Error::IncorrectPass => "incorrect password",
            Error::AES => "aes error",
            Error::BadFormat => "bad format",
        }
    }
}

/// The mathematical value of a [`PasswordMeta`].
pub struct MetaView {
    pub description: Seq<char>,
    pub apps: Seq<Seq<char>>,
}

/// Unencrypted metadata of one entry: a free-text description and the
/// identifiers of affiliated applications.
#[derive(Debug, PartialEq)]
pub struct PasswordMeta {
    pub description: String,
    pub apps: Vec<String>,
}

impl View for PasswordMeta {
    type V = MetaView;

    open spec fn view(&self) -> MetaView {
        MetaView { description: self.description@, apps: self.apps.deep_view() }
    }
}

impl PasswordMeta {
    pub fn new(description: String, apps: Vec<String>) -> (r: Self)
        ensures
            r@ == (MetaView { description: description@, apps: apps.deep_view() }),
    {
        PasswordMeta { description, apps }
    }
}

impl Default for PasswordMeta {
    fn default() -> (r: Self)
        ensures
            r@ == (MetaView { description: Seq::<char>::empty(), apps: Seq::<Seq<char>>::empty() }),
    {
        let r = PasswordMeta { description: String::new(), apps: Vec::new() };
        proof {
            assert(r.apps.deep_view() =~= Seq::<Seq<char>>::empty());
        }
        r
    }
}

/// The mathematical value of a [`Password`].
pub struct PasswordView {
    pub cypher: Seq<u8>,
    pub meta: MetaView,
}

/// One stored entry: the authenticated ciphertext of the secret, and its
/// unencrypted metadata.
#[derive(Debug, PartialEq)]
pub struct Password {
    cypher: Vec<u8>,
    meta: PasswordMeta,
}

impl View for Password {
    type V = PasswordView;

    closed spec fn view(&self) -> PasswordView {
        PasswordView { cypher: self.cypher@, meta: self.meta@ }
    }
}

impl Password {
    /// Wraps a ciphertext into an entry with empty metadata.
    pub fn from_cypher(cypher: Vec<u8>) -> (r: Self)
        ensures
            r@ == (PasswordView {
                cypher: cypher@,
                meta: MetaView {
                    description: Seq::<char>::empty(),
                    apps: Seq::<Seq<char>>::empty(),
                },
            }),
    {
        Password { cypher, meta: PasswordMeta::default() }
    }

    /// Replaces the metadata; the ciphertext is untouched.
    pub fn update_meta(&mut self, meta: PasswordMeta)
        ensures
            final(self)@ == (PasswordView { cypher: old(self)@.cypher, meta: meta@ }),
    {
        self.meta = meta;
    }
}

/// True when no two entries share a name.
pub open spec fn unique_names(es: Seq<(Seq<char>, PasswordView)>) -> bool {
    forall|i: int, j: int|
        0 <= i < j < es.len() ==> (#[trigger] es[i]).0 != (#[trigger] es[j]).0
}

/// The map described by a sequence of named entries; a later entry wins over
/// an earlier one of the same name.
pub open spec fn table_of(es: Seq<(Seq<char>, PasswordView)>) -> Map<Seq<char>, PasswordView>
    decreases es.len(),
{
    if es.len() == 0 {
        Map::empty()
    } else {
        table_of(es.drop_last()).insert(es.last().0, es.last().1)
    }
}

/// The key set of [`table_of`] is exactly the set of entry names.
pub proof fn lemma_table_of_domain(es: Seq<(Seq<char>, PasswordView)>)
    ensures
        forall|k: Seq<char>|
            #[trigger] table_of(es).contains_key(k) <==> (exists|i: int|
                0 <= i < es.len() && (#[trigger] es[i]).0 == k),
    decreases es.len(),
{
    if es.len() == 0 {
    } else {
        let prefix = es.drop_last();
        lemma_table_of_domain(prefix);
        assert(table_of(es) == table_of(prefix).insert(es.last().0, es.last().1));
        assert forall|k: Seq<char>| #[trigger] table_of(es).contains_key(k) implies (exists|i: int|
            0 <= i < es.len() && (#[trigger] es[i]).0 == k) by {
            if k == es.last().0 {
                assert((es[es.len() - 1]).0 == k);
            } else {
                assert(table_of(prefix).contains_key(k));
                let i = choose|i: int| 0 <= i < prefix.len() && (#[trigger] prefix[i]).0 == k;
                assert(prefix[i] == es[i]);
                assert((es[i]).0 == k);
            }
        }
        assert forall|k: Seq<char>|
            (exists|i: int| 0 <= i < es.len() && (#[trigger] es[i]).0 == k) implies #[trigger] table_of(
            es,
        ).contains_key(k) by {
            let i = choose|i: int| 0 <= i < es.len() && (#[trigger] es[i]).0 == k;
            if i == es.len() - 1 {
            } else {
                assert((prefix[i]).0 == k);
            }
        }
    }
}

/// With unique names, [`table_of`] maps each entry's name to that entry.
pub proof fn lemma_table_of_index(es: Seq<(Seq<char>, PasswordView)>, i: int)
    requires
        unique_names(es),
        0 <= i < es.len(),
    ensures
        table_of(es).contains_key(es[i].0),
        table_of(es)[es[i].0] == es[i].1,
    decreases es.len(),
{
    if i == es.len() - 1 {
    } else {
        let prefix = es.drop_last();
        assert((prefix[i]).0 == es[i].0 && (prefix[i]).1 == es[i].1);
        lemma_table_of_index(prefix, i);
        assert(es[i].0 != es.last().0);
    }
}

/// Appending an entry inserts it into the map.
pub proof fn lemma_table_of_push(
    es: Seq<(Seq<char>, PasswordView)>,
    name: Seq<char>,
    pv: PasswordView,
)
    ensures
        table_of(es.push((name, pv))) == table_of(es).insert(name, pv),
{
    assert(es.push((name, pv)).drop_last() =~= es);
    assert(es.push((name, pv)).last() == (name, pv));
}

/// With unique names, deleting the entry at an index removes its name from
/// the map.
pub proof fn lemma_table_of_remove(es: Seq<(Seq<char>, PasswordView)>, i: int)
    requires
        unique_names(es),
        0 <= i < es.len(),
    ensures
        table_of(es.remove(i)) == table_of(es).remove(es[i].0),
    decreases es.len(),
{
    let k = es[i].0;
    let prefix = es.drop_last();
    if i == es.len() - 1 {
        assert(es.remove(i) =~= prefix);
        lemma_table_of_domain(prefix);
        assert(forall|j: int| 0 <= j < prefix.len() ==> (#[trigger] prefix[j]).0 != k);
        assert(!table_of(prefix).contains_key(k));
        assert(table_of(prefix).insert(k, es[i].1).remove(k) =~= table_of(prefix));
    } else {
        assert(forall|a: int, b: int|
            0 <= a < b < prefix.len() ==> (#[trigger] prefix[a]).0 != (#[trigger] prefix[b]).0);
        assert((prefix[i]).0 == k);
        lemma_table_of_remove(prefix, i);
        assert(es.remove(i).drop_last() =~= prefix.remove(i));
        assert(es.remove(i).last() == es.last());
        assert(k != es.last().0);
        assert(table_of(prefix).remove(k).insert(es.last().0, es.last().1) =~= table_of(
            prefix,
        ).insert(es.last().0, es.last().1).remove(k));
    }
}

/// With unique names, replacing the entry at an index by one with the same
/// name re-inserts that name in the map.
pub proof fn lemma_table_of_update(es: Seq<(Seq<char>, PasswordView)>, i: int, pv: PasswordView)
    requires
        unique_names(es),
        0 <= i < es.len(),
    ensures
        table_of(es.update(i, (es[i].0, pv))) == table_of(es).insert(es[i].0, pv),
    decreases es.len(),
{
    let k = es[i].0;
    let prefix = es.drop_last();
    let updated = es.update(i, (k, pv));
    if i == es.len() - 1 {
        assert(updated.drop_last() =~= prefix);
        assert(updated.last() == (k, pv));
        assert(table_of(prefix).insert(k, pv) =~= table_of(prefix).insert(k, es[i].1).insert(
            k,
            pv,
        ));
    } else {
        assert(forall|a: int, b: int|
            0 <= a < b < prefix.len() ==> (#[trigger] prefix[a]).0 != (#[trigger] prefix[b]).0);
        assert((prefix[i]).0 == k);
        lemma_table_of_update(prefix, i, pv);
        assert(updated.drop_last() =~= prefix.update(i, (k, pv)));
        assert(updated.last() == es.last());
        assert(k != es.last().0);
        assert(table_of(prefix).insert(k, pv).insert(es.last().0, es.last().1) =~= table_of(
            prefix,
        ).insert(es.last().0, es.last().1).insert(k, pv));
    }
}

/// The entry stored for a secret encrypted under a passphrase.
pub open spec fn sealed_entry(passphrase: Seq<char>, secret: Seq<char>, meta: MetaView) -> PasswordView {
    PasswordView { cypher: seal_with(passphrase, encode_utf8(secret)), meta: meta }
}

/// The whole table: unique entry names, each mapped to a stored entry.
#[derive(Debug, PartialEq)]
pub struct PassTable {
    passwords: Vec<(String, Password)>,
}

/// The mathematical values of a table's entries, in storage order.
pub open spec fn entry_views(s: Seq<(String, Password)>) -> Seq<(Seq<char>, PasswordView)> {
    Seq::new(s.len(), |i: int| (s[i].0@, s[i].1@))
}

impl View for PassTable {
    type V = Map<Seq<char>, PasswordView>;

    closed spec fn view(&self) -> Map<Seq<char>, PasswordView> {
        table_of(entry_views(self.passwords@))
    }
}

impl PassTable {
    /// The entries in storage order; the map view abstracts this order away.
    pub closed spec fn entries(&self) -> Seq<(Seq<char>, PasswordView)> {
        entry_views(self.passwords@)
    }

    /// Well-formed: no two entries share a name.
    pub closed spec fn wf(&self) -> bool {
        unique_names(self.entries())
    }

    /// An empty table.
    pub fn new() -> (r: Self)
        ensures
            r.wf(),
            r@ == Map::<Seq<char>, PasswordView>::empty(),
            r.entries() == Seq::<(Seq<char>, PasswordView)>::empty(),
    {
        let r = PassTable { passwords: Vec::new() };
        proof {
            assert(r.entries() =~= Seq::<(Seq<char>, PasswordView)>::empty());
        }
        r
    }

    /// The position of the entry with the given name, if one is present.
    fn find_index(&self, name: &str) -> (r: Option<usize>)
        ensures
            match r {
                Some(i) => i < self.entries().len() && self.entries()[i as int].0 == name@,
                None => forall|i: int|
                    0 <= i < self.entries().len() ==> (#[trigger] self.entries()[i]).0 != name@,
            },
    {
        let name_owned: String = name.to_owned();
        let n = self.passwords.len();
        let mut i: usize = 0;
        while i < n
            invariant
                n == self.passwords@.len(),
                i <= n,
                name_owned@ == name@,
                forall|j: int| 0 <= j < i ==> (#[trigger] self.entries()[j]).0 != name@,
            decreases n - i,
        {
            if self.passwords[i].0 == name_owned {
                proof {
                    assert(self.entries()[i as int].0 == name@);
                }
                return Some(i);
            }
            i = i + 1;
        }
        None
    }

    /// Whether an entry with the given name is present.
    pub fn contains(&self, name: &str) -> (r: bool)
        ensures
            r == self@.contains_key(name@),
    {
        proof {
            lemma_table_of_domain(self.entries());
        }
        match self.find_index(name) {
            Some(_) => true,
            None => false,
        }
    }

    /// Fetches and decrypts the secret stored under `name`, using the key and
    /// nonce derived from `key`.  Fails with `PassNotFound` for an absent
    /// name, with `IncorrectPass` when tag verification fails (the sole sign
    /// of a wrong passphrase), and with `AES` when the decrypted bytes are
    /// not valid text.
    pub fn get_password(&self, name: &str, key: &str) -> (r: Result<String, Error>)
        requires
            self.wf(),
        ensures
            match r {
                Ok(s) => self@.contains_key(name@) && match open_with(
                    key@,
                    self@[name@].cypher,
                ) {
                    Some(p) => valid_utf8(p) && s@ == decode_utf8(p),
                    None => false,
                },
                Err(e) => match e {
                    Error::PassNotFound => !self@.contains_key(name@),
                    Error::IncorrectPass => self@.contains_key(name@) && open_with(
                        key@,
                        self@[name@].cypher,
                    ) is None,
                    Error::AES => self@.contains_key(name@) && match open_with(
                        key@,
                        self@[name@].cypher,
                    ) {
                        Some(p) => !valid_utf8(p),
                        None => false,
                    },
                    _ => false,
                },
            },
    {
        proof {
            lemma_table_of_domain(self.entries());
        }
        let i = match self.find_index(name) {
            Some(i) => i,
            None => {
                return Err(Error::PassNotFound);
            },
        };
        proof {
            lemma_table_of_index(self.entries(), i as int);
        }
        let plain = match crate::crypto::decrypt(self.passwords[i].1.cypher.as_slice(), key) {
            Ok(p) => p,
            Err(_) => {
                return Err(Error::IncorrectPass);
            },
        };
        match string_from_utf8(plain) {
            Some(s) => Ok(s),
            None => Err(Error::AES),
        }
    }

    /// Encrypts `password` under the pair derived from `key` and stores it
    /// under `name` with the given metadata.  Fails with `PassExists` when
    /// the name is already present, and with `AES` when the cipher refuses
    /// the payload (only possible beyond 2^36 bytes).
    pub fn add_password(&mut self, name: &str, password: &str, meta: PasswordMeta, key: &str) -> (r:
        Result<(), Error>)
        requires
            old(self).wf(),
        ensures
            final(self).wf(),
            old(self)@.contains_key(name@) ==> r == Err::<(), Error>(Error::PassExists)
                && final(self)@ == old(self)@ && final(self).entries() == old(self).entries(),
            !old(self)@.contains_key(name@) ==> match r {
                Ok(_) => encode_utf8(password@).len() <= MAX_PLAINTEXT_LEN
                    && final(self)@ == old(self)@.insert(name@, sealed_entry(key@, password@, meta@))
                    && final(self).entries() == old(self).entries().push(
                    (name@, sealed_entry(key@, password@, meta@)),
                ) && open_with(key@, seal_with(key@, encode_utf8(password@))) == Some(
                    encode_utf8(password@),
                ),
                Err(e) => e == Error::AES && encode_utf8(password@).len() > MAX_PLAINTEXT_LEN
                    && final(self)@ == old(self)@ && final(self).entries() == old(self).entries(),
            },
    {
        proof {
            lemma_table_of_domain(self.entries());
        }
        if self.find_index(name).is_some() {
            return Err(Error::PassExists);
        }
        let cypher = match crate::crypto::encrypt(password.as_bytes(), key) {
            Ok(c) => c,
            Err(_) => {
                return Err(Error::AES);
            },
        };
        let ghost old_entries = self.entries();
        let entry = Password { cypher, meta };
        let ghost pv = entry@;
        self.passwords.push((name.to_owned(), entry));
        proof {
            assert(self.entries() =~= old_entries.push((name@, pv)));
            lemma_table_of_push(old_entries, name@, pv);
            assert forall|a: int, b: int|
                0 <= a < b < self.entries().len() implies (#[trigger] self.entries()[a]).0 != (
            #[trigger] self.entries()[b]).0 by {
                if b == self.entries().len() - 1 {
                    assert((old_entries[a]).0 != name@);
                }
            }
        }
        Ok(())
    }

    /// The metadata of the entry stored under `name`, readable without any
    /// passphrase.  Fails with `PassNotFound` for an absent name.
    pub fn get_metadata(&self, name: &str) -> (r: Result<&PasswordMeta, Error>)
        requires
            self.wf(),
        ensures
            match r {
                Ok(m) => self@.contains_key(name@) && m@ == self@[name@].meta,
                Err(e) => e == Error::PassNotFound && !self@.contains_key(name@),
            },
    {
        proof {
            lemma_table_of_domain(self.entries());
        }
        match self.find_index(name) {
            Some(i) => {
                proof {
                    lemma_table_of_index(self.entries(), i as int);
                }
                Ok(&self.passwords[i].1.meta)
            },
            None => Err(Error::PassNotFound),
        }
    }

    /// Replaces the metadata of the entry stored under `name`; the ciphertext
    /// is untouched.  Fails with `PassNotFound` for an absent name.
    pub fn update_metadata(&mut self, name: &str, meta: PasswordMeta) -> (r: Result<(), Error>)
        requires
            old(self).wf(),
        ensures
            final(self).wf(),
            match r {
                Ok(_) => old(self)@.contains_key(name@) && final(self)@ == old(self)@.insert(
                    name@,
                    (PasswordView { cypher: old(self)@[name@].cypher, meta: meta@ }),
                ),
                Err(e) => e == Error::PassNotFound && !old(self)@.contains_key(name@)
                    && final(self)@ == old(self)@ && final(self).entries() == old(self).entries(),
            },
    {
        proof {
            lemma_table_of_domain(self.entries());
        }
        let i = match self.find_index(name) {
            Some(i) => i,
            None => {
                return Err(Error::PassNotFound);
            },
        };
        proof {
            lemma_table_of_index(self.entries(), i as int);
        }
        let ghost old_entries = self.entries();
        let mut entry = self.passwords.remove(i);
        entry.1.update_meta(meta);
        let ghost pv = entry.1@;
        self.passwords.insert(i, entry);
        proof {
            assert(self.entries() =~= old_entries.update(i as int, (name@, pv)));
            lemma_table_of_update(old_entries, i as int, pv);
            assert forall|a: int, b: int|
                0 <= a < b < self.entries().len() implies (#[trigger] self.entries()[a]).0 != (
            #[trigger] self.entries()[b]).0 by {
                assert((old_entries[a]).0 == self.entries()[a].0);
                assert((old_entries[b]).0 == self.entries()[b].0);
            }
        }
        Ok(())
    }

    /// Deletes the entry stored under `name`.  Fails with `PassNotFound` for
    /// an absent name.
    pub fn remove_password(&mut self, name: &str) -> (r: Result<(), Error>)
        requires
            old(self).wf(),
        ensures
            final(self).wf(),
            match r {
                Ok(_) => old(self)@.contains_key(name@) && final(self)@ == old(self)@.remove(
                    name@,
                ),
                Err(e) => e == Error::PassNotFound && !old(self)@.contains_key(name@)
                    && final(self)@ == old(self)@ && final(self).entries() == old(self).entries(),
            },
    {
        proof {
            lemma_table_of_domain(self.entries());
        }
        let i = match self.find_index(name) {
            Some(i) => i,
            None => {
                return Err(Error::PassNotFound);
            },
        };
        proof {
            lemma_table_of_index(self.entries(), i as int);
        }
        let ghost old_entries = self.entries();
        let _ = self.passwords.remove(i);
        proof {
            assert(self.entries() =~= old_entries.remove(i as int));
            lemma_table_of_remove(old_entries, i as int);
            assert forall|a: int, b: int|
                0 <= a < b < self.entries().len() implies (#[trigger] self.entries()[a]).0 != (
            #[trigger] self.entries()[b]).0 by {
                if a < i as int {
                    assert(self.entries()[a] == old_entries[a]);
                } else {
                    assert(self.entries()[a] == old_entries[a + 1]);
                }
                if b < i as int {
                    assert(self.entries()[b] == old_entries[b]);
                } else {
                    assert(self.entries()[b] == old_entries[b + 1]);
                }
            }
        }
        Ok(())
    }

    /// All entry names, in no promised order, without duplicates.
    pub fn get_names(&self) -> (r: Vec<String>)
        requires
            self.wf(),
        ensures
            r@.len() == self.entries().len(),
            forall|i: int| 0 <= i < r@.len() ==> (#[trigger] r@[i])@ == self.entries()[i].0,
            forall|i: int, j: int| 0 <= i < j < r@.len() ==> (#[trigger] r@[i])@ != (#[trigger] r@[j])@,
            forall|k: Seq<char>|
                #[trigger] self@.contains_key(k) <==> (exists|i: int|
                    0 <= i < r@.len() && (#[trigger] r@[i])@ == k),
    {
        proof {
            lemma_table_of_domain(self.entries());
        }
        let n = self.passwords.len();
        let mut r: Vec<String> = Vec::new();
        let mut i: usize = 0;
        while i < n
            invariant
                n == self.passwords@.len(),
                i <= n,
                r@.len() == i,
                forall|j: int| 0 <= j < i ==> (#[trigger] r@[j])@ == self.entries()[j].0,
            decreases n - i,
        {
            r.push(self.passwords[i].0.clone());
            i = i + 1;
        }
        proof {
            assert forall|k: Seq<char>| #[trigger] self@.contains_key(k) implies (exists|j: int|
                0 <= j < r@.len() && (#[trigger] r@[j])@ == k) by {
                let j = choose|j: int|
                    0 <= j < self.entries().len() && (#[trigger] self.entries()[j]).0 == k;
                assert((r@[j])@ == k);
            }
            assert forall|k: Seq<char>|
                (exists|j: int| 0 <= j < r@.len() && (#[trigger] r@[j])@ == k) implies #[trigger] self@.contains_key(
                k,
            ) by {
                let j = choose|j: int| 0 <= j < r@.len() && (#[trigger] r@[j])@ == k;
                assert((self.entries()[j]).0 == k);
            }
        }
        r
    }
}

impl PassTable {
    /// Serializes the whole table: the entry count, then each entry in
    /// storage order.  Parsing the result yields the table back.
    pub fn to_binary(&self) -> (r: Vec<u8>)
        requires
            self.wf(),
        ensures
            r@ == encode_table(self.entries()),
            entries_fit(self.entries()),
            parse_table(r@) == Some(self@),
    {
        let n = self.passwords.len();
        let mut out: Vec<u8> = Vec::new();
        push_u64(&mut out, n as u64);
        proof {
            assert(self.entries().take(0) =~= Seq::<(Seq<char>, PasswordView)>::empty());
            assert(out@ =~= spec_encode_u64(n as u64) + spec_encode_entries_items(
                self.entries().take(0),
            ));
        }
        let mut i: usize = 0;
        while i < n
            invariant
                self.wf(),
                n == self.passwords@.len(),
                i <= n,
                out@ == spec_encode_u64(n as u64) + spec_encode_entries_items(
                    self.entries().take(i as int),
                ),
                forall|j: int| 0 <= j < i ==> entry_fits(#[trigger] self.entries()[j]),
            decreases n - i,
        {
            let ghost out0 = out@;
            let ghost e = self.entries()[i as int];
            let ghost apps_dv = self.passwords@[i as int].1.meta.apps.deep_view();
            push_string(&mut out, self.passwords[i].0.as_str());
            push_bytes(&mut out, self.passwords[i].1.cypher.as_slice());
            push_string(&mut out, self.passwords[i].1.meta.description.as_str());
            let napps = self.passwords[i].1.meta.apps.len();
            push_u64(&mut out, napps as u64);
            proof {
                assert(apps_dv.take(0) =~= Seq::<Seq<char>>::empty());
            }
            let ghost mid = out@;
            let mut j: usize = 0;
            while j < napps
                invariant
                    i < self.passwords@.len(),
                    napps == self.passwords@[i as int].1.meta.apps@.len(),
                    apps_dv == self.passwords@[i as int].1.meta.apps.deep_view(),
                    napps == apps_dv.len(),
                    j <= napps,
                    out@ == mid + spec_encode_strings_items(apps_dv.take(j as int)),
                    forall|jj: int|
                        0 <= jj < j ==> encode_utf8(#[trigger] apps_dv[jj]).len() <= u64::MAX,
                decreases napps - j,
            {
                push_string(&mut out, self.passwords[i].1.meta.apps[j].as_str());
                proof {
                    assert(apps_dv[j as int] == self.passwords@[i as int].1.meta.apps@[j as int]@);
                    lemma_encode_strings_items_snoc(apps_dv, j as int);
                }
                j = j + 1;
            }
            proof {
                assert(apps_dv.take(napps as int) =~= apps_dv);
                assert(strings_fit(apps_dv));
                assert(e.1 == self.passwords@[i as int].1@);
                assert(e.1.meta.apps == apps_dv);
                assert(out@ =~= out0 + spec_encode_entry(e));
                assert(entry_fits(e));
                lemma_encode_entries_items_snoc(self.entries(), i as int);
                assert(out@ =~= spec_encode_u64(n as u64) + spec_encode_entries_items(
                    self.entries().take(i + 1),
                ));
            }
            i = i + 1;
        }
        proof {
            assert(self.entries().take(n as int) =~= self.entries());
            assert(entries_fit(self.entries()));
            lemma_encode_parse_roundtrip(self.entries());
        }
        out
    }

    /// Reads one entry at `pos`.
    #[verifier::loop_isolation(false)]
    fn read_entry(bytes: &[u8], pos: usize) -> (r: Option<((String, Password), usize)>)
        requires
            pos <= bytes@.len(),
        ensures
            match r {
                Some(t) => pos <= t.1 <= bytes@.len() && spec_parse_entry(bytes@.skip(pos as int))
                    == Some((((t.0).0@, (t.0).1@), bytes@.skip(t.1 as int))),
                None => spec_parse_entry(bytes@.skip(pos as int)) is None,
            },
    {
        let (name, p1) = match read_string(bytes, pos) {
            Some(t) => t,
            None => {
                return None;
            },
        };
        let (cy, p2) = match read_bytes(bytes, p1) {
            Some(t) => t,
            None => {
                return None;
            },
        };
        let (desc, p3) = match read_string(bytes, p2) {
            Some(t) => t,
            None => {
                return None;
            },
        };
        let (napps, p4) = match read_u64(bytes, p3) {
            Some(t) => t,
            None => {
                return None;
            },
        };
        let mut apps: Vec<String> = Vec::new();
        let mut k: u64 = 0;
        let mut pos_cur: usize = p4;
        proof {
            assert(apps.deep_view() =~= Seq::<Seq<char>>::empty());
        }
        while k < napps
            invariant
                p4 <= pos_cur <= bytes@.len(),
                k <= napps,
                apps.deep_view().len() == k,
                ({
                    let total = spec_parse_strings_items(bytes@.skip(p4 as int), napps as nat);
                    let remain = spec_parse_strings_items(
                        bytes@.skip(pos_cur as int),
                        (napps - k) as nat,
                    );
                    match total {
                        Some(t) => remain matches Some(q) && t.0 == apps.deep_view() + q.0 && t.1
                            == q.1,
                        None => remain is None,
                    }
                }),
            decreases napps - k,
        {
            let ghost acc0 = apps.deep_view();
            let (s, pnext) = match read_string(bytes, pos_cur) {
                Some(t) => t,
                None => {
                    proof {
                        assert(spec_parse_strings_items(
                            bytes@.skip(pos_cur as int),
                            (napps - k) as nat,
                        ) is None);
                        assert(spec_parse_strings_items(
                            bytes@.skip(p4 as int),
                            napps as nat,
                        ) is None);
                        assert(spec_parse_strings(bytes@.skip(p3 as int)) is None);
                        assert(spec_parse_entry(bytes@.skip(pos as int)) is None);
                    }
                    return None;
                },
            };
            let ghost sv = s@;
            apps.push(s);
            proof {
                assert(apps.deep_view() =~= acc0.push(sv));
                let remain0 = spec_parse_strings_items(
                    bytes@.skip(pos_cur as int),
                    (napps - k) as nat,
                );
                let remain1 = spec_parse_strings_items(
                    bytes@.skip(pnext as int),
                    (napps - (k + 1)) as nat,
                );
                match remain1 {
                    Some(q1) => {
                        assert(remain0 == Some((seq![sv] + q1.0, q1.1)));
                        assert(acc0 + (seq![sv] + q1.0) =~= apps.deep_view() + q1.0);
                    },
                    None => {
                        assert(remain0 is None);
                    },
                }
            }
            pos_cur = pnext;
            k = k + 1;
        }
        proof {
            let total = spec_parse_strings_items(bytes@.skip(p4 as int), napps as nat);
            let remain = spec_parse_strings_items(bytes@.skip(pos_cur as int), 0);
            assert(remain == Some((Seq::<Seq<char>>::empty(), bytes@.skip(pos_cur as int))));
            assert(apps.deep_view() + Seq::<Seq<char>>::empty() =~= apps.deep_view());
            assert(total == Some((apps.deep_view(), bytes@.skip(pos_cur as int))));
        }
        let meta = PasswordMeta { description: desc, apps };
        let entry = Password { cypher: cy, meta };
        Some(((name, entry), pos_cur))
    }

    /// Reconstructs a table from serialized bytes.  Fails with `BadFormat`
    /// exactly when the bytes are truncated, carry trailing data, hold
    /// invalid UTF-8 or repeat an entry name.
    pub fn from_binary(encoded: &[u8]) -> (r: Result<PassTable, Error>)
        ensures
            match r {
                Ok(t) => t.wf() && parse_table(encoded@) == Some(t@),
                Err(e) => e == Error::BadFormat && parse_table(encoded@) is None,
            },
    {
        proof {
            assert(encoded@.skip(0) =~= encoded@);
        }
        let (count, start) = match read_u64(encoded, 0) {
            Some(t) => t,
            None => {
                return Err(Error::BadFormat);
            },
        };
        let mut table = PassTable::new();
        let mut k: u64 = 0;
        let mut pos: usize = start;
        while k < count
            invariant
                pos <= encoded@.len(),
                k <= count,
                spec_parse_u64(encoded@) == Some((count, encoded@.skip(start as int))),
                table.wf(),
                table.entries().len() == k,
                ({
                    let total = spec_parse_entries_items(
                        encoded@.skip(start as int),
                        count as nat,
                    );
                    let remain = spec_parse_entries_items(
                        encoded@.skip(pos as int),
                        (count - k) as nat,
                    );
                    match total {
                        Some(t) => remain matches Some(q) && t.0 == table.entries() + q.0 && t.1
                            == q.1,
                        None => remain is None,
                    }
                }),
            decreases count - k,
        {
            let ghost acc0 = table.entries();
            let (entry, pnext) = match Self::read_entry(encoded, pos) {
                Some(t) => t,
                None => {
                    return Err(Error::BadFormat);
                },
            };
            let ghost ev = (entry.0@, entry.1@);
            let dup = table.find_index(entry.0.as_str()).is_some();
            if dup {
                proof {
                    let total = spec_parse_entries_items(
                        encoded@.skip(start as int),
                        count as nat,
                    );
                    match total {
                        Some(t) => {
                            let remain1 = spec_parse_entries_items(
                                encoded@.skip(pnext as int),
                                (count - (k + 1)) as nat,
                            );
                            match remain1 {
                                Some(q1) => {
                                    let i = choose|i: int|
                                        0 <= i < acc0.len() && (#[trigger] acc0[i]).0 == ev.0;
                                    assert(t.0 == acc0 + (seq![ev] + q1.0));
                                    assert(t.0[i].0 == ev.0);
                                    assert(t.0[acc0.len() as int].0 == ev.0);
                                    assert(!unique_names(t.0));
                                },
                                None => {
                                    assert(false);
                                },
                            }
                        },
                        None => {},
                    }
                }
                return Err(Error::BadFormat);
            }
            table.passwords.push(entry);
            proof {
                assert(table.entries() =~= acc0.push(ev));
                assert forall|a: int, b: int|
                    0 <= a < b < table.entries().len() implies (#[trigger] table.entries()[a]).0
                    != (#[trigger] table.entries()[b]).0 by {
                    if b == table.entries().len() - 1 {
                        assert((acc0[a]).0 != ev.0);
                    } else {
                        assert(table.entries()[a] == acc0[a]);
                        assert(table.entries()[b] == acc0[b]);
                    }
                }
                let remain1 = spec_parse_entries_items(
                    encoded@.skip(pnext as int),
                    (count - (k + 1)) as nat,
                );
                match remain1 {
                    Some(q1) => {
                        assert(spec_parse_entries_items(
                            encoded@.skip(pos as int),
                            (count - k) as nat,
                        ) == Some((seq![ev] + q1.0, q1.1)));
                        assert(acc0 + (seq![ev] + q1.0) =~= table.entries() + q1.0);
                    },
                    None => {},
                }
            }
            pos = pnext;
            k = k + 1;
        }
        if pos != encoded.len() {
            proof {
                assert(encoded@.skip(pos as int).len() > 0);
            }
            return Err(Error::BadFormat);
        }
        proof {
            assert(encoded@.skip(pos as int).len() == 0);
            assert(table.entries() + Seq::<(Seq<char>, PasswordView)>::empty() =~= table.entries());
        }
        Ok(table)
    }
}

/// Round trip: a secret stored by a successful add decrypts, under the same
/// passphrase, back to exactly the original secret.  The premise is what
/// `encrypt` (and so `add_password`) guarantees of every ciphertext it
/// produces.
pub proof fn lemma_add_get_roundtrip(
    t: Map<Seq<char>, PasswordView>,
    name: Seq<char>,
    secret: Seq<char>,
    passphrase: Seq<char>,
    meta: MetaView,
)
    requires
        open_with(passphrase, seal_with(passphrase, encode_utf8(secret))) == Some(
            encode_utf8(secret),
        ),
    ensures
        ({
            let t2 = t.insert(name, sealed_entry(passphrase, secret, meta));
            &&& t2.contains_key(name)
            &&& open_with(passphrase, t2[name].cypher) == Some(encode_utf8(secret))
            &&& valid_utf8(encode_utf8(secret))
            &&& decode_utf8(encode_utf8(secret)) == secret
        }),
{
    vstd::utf8::encode_utf8_valid_utf8(secret);
    vstd::utf8::encode_utf8_decode_utf8(secret);
}

/// Uniqueness: once an add stores an entry under a name, that name is
/// present in the table, so a second add under it is refused whatever its
/// payload.
pub proof fn lemma_added_name_present(
    t: Map<Seq<char>, PasswordView>,
    name: Seq<char>,
    pv: PasswordView,
)
    ensures
        t.insert(name, pv).contains_key(name),
{
}

/// Absent names: a name never added is no key of the empty table, and a
/// removed name is no key of the table it was removed from; every lookup,
/// metadata access, update or removal of such a name is refused.
pub proof fn lemma_absent_name_not_found(t: Map<Seq<char>, PasswordView>, name: Seq<char>)
    ensures
        !Map::<Seq<char>, PasswordView>::empty().contains_key(name),
        !t.remove(name).contains_key(name),
{
}

/// Metadata independence: replacing an entry's metadata keeps its
/// ciphertext, so decryption under the original passphrase still sees the
/// same ciphertext and yields the same secret.
pub proof fn lemma_update_metadata_preserves_secret(
    t: Map<Seq<char>, PasswordView>,
    name: Seq<char>,
    meta: MetaView,
    passphrase: Seq<char>,
)
    requires
        t.contains_key(name),
    ensures
        ({
            let t2 = t.insert(name, (PasswordView { cypher: t[name].cypher, meta: meta }));
            &&& t2.contains_key(name)
            &&& t2[name].cypher == t[name].cypher
            &&& t2[name].meta == meta
            &&& open_with(passphrase, t2[name].cypher) == open_with(passphrase, t[name].cypher)
        }),
{
}

/// Relies on `String::from_utf8`: it succeeds exactly on valid UTF-8 input,
/// returning a string with those bytes as its contents.
#[verifier::external_body]
pub(crate) fn string_from_utf8(bytes: Vec<u8>) -> (r: Option<String>)
    ensures
        (r matches Some(s) ==> valid_utf8(bytes@) && s@ == decode_utf8(bytes@)),
        (r is None ==> !valid_utf8(bytes@)),
{
    String::from_utf8(bytes).ok()
}

} // verus!
