//! The tree-sitter grammars, by language key, and which of them have been used.
use vstd::prelude::*;

use crate::text;

verus! {

/// A tree-sitter grammar.
#[verifier::external_type_specification]
#[verifier::external_body]
pub struct ExLanguage(tree_sitter::Language);

/// The grammar that stands behind a language key.
pub uninterp spec fn grammar(key: Seq<char>) -> tree_sitter::Language;

/// `tree_sitter_php::LANGUAGE_PHP`: the grammar that the key `php` names,
/// the same at each call.
#[verifier::external_body]
fn php_grammar() -> (l: tree_sitter::Language)
    ensures
        l == grammar("php"@),
{
    tree_sitter_php::LANGUAGE_PHP.into()
}

/// `tree_sitter_go::LANGUAGE`: the grammar that the key `go` names,
/// the same at each call.
#[verifier::external_body]
fn go_grammar() -> (l: tree_sitter::Language)
    ensures
        l == grammar("go"@),
{
    tree_sitter_go::LANGUAGE.into()
}

/// `tree_sitter_javascript::LANGUAGE`: the grammar that the key `javascript` names,
/// the same at each call.
#[verifier::external_body]
fn javascript_grammar() -> (l: tree_sitter::Language)
    ensures
        l == grammar("javascript"@),
{
    tree_sitter_javascript::LANGUAGE.into()
}

/// `tree_sitter_typescript::LANGUAGE_TYPESCRIPT`: the grammar that the key `typescript` names,
/// the same at each call.
#[verifier::external_body]
fn typescript_grammar() -> (l: tree_sitter::Language)
    ensures
        l == grammar("typescript"@),
{
    tree_sitter_typescript::LANGUAGE_TYPESCRIPT.into()
}

/// `tree_sitter_typescript::LANGUAGE_TSX`: the grammar that the key `tsx` names,
/// the same at each call.
#[verifier::external_body]
fn tsx_grammar() -> (l: tree_sitter::Language)
    ensures
        l == grammar("tsx"@),
{
    tree_sitter_typescript::LANGUAGE_TSX.into()
}

/// `tree_sitter_python::LANGUAGE`: the grammar that the key `python` names,
/// the same at each call.
#[verifier::external_body]
fn python_grammar() -> (l: tree_sitter::Language)
    ensures
        l == grammar("python"@),
{
    tree_sitter_python::LANGUAGE.into()
}

/// `tree_sitter_rust::LANGUAGE`: the grammar that the key `rust` names,
/// the same at each call.
#[verifier::external_body]
fn rust_grammar() -> (l: tree_sitter::Language)
    ensures
        l == grammar("rust"@),
{
    tree_sitter_rust::LANGUAGE.into()
}

/// `tree_sitter_bash::LANGUAGE`: the grammar that the key `bash` names,
/// the same at each call.
#[verifier::external_body]
fn bash_grammar() -> (l: tree_sitter::Language)
    ensures
        l == grammar("bash"@),
{
    tree_sitter_bash::LANGUAGE.into()
}

/// `tree_sitter_java::LANGUAGE`: the grammar that the key `java` names,
/// the same at each call.
#[verifier::external_body]
fn java_grammar() -> (l: tree_sitter::Language)
    ensures
        l == grammar("java"@),
{
    tree_sitter_java::LANGUAGE.into()
}

/// `tree_sitter_c::LANGUAGE`: the grammar that the key `c` names,
/// the same at each call.
#[verifier::external_body]
fn c_grammar() -> (l: tree_sitter::Language)
    ensures
        l == grammar("c"@),
{
    tree_sitter_c::LANGUAGE.into()
}

/// `tree_sitter_cpp::LANGUAGE`: the grammar that the key `cpp` names,
/// the same at each call.
#[verifier::external_body]
fn cpp_grammar() -> (l: tree_sitter::Language)
    ensures
        l == grammar("cpp"@),
{
    tree_sitter_cpp::LANGUAGE.into()
}

/// `tree_sitter_c_sharp::LANGUAGE`: the grammar that the key `csharp` names,
/// the same at each call.
#[verifier::external_body]
fn csharp_grammar() -> (l: tree_sitter::Language)
    ensures
        l == grammar("csharp"@),
{
    tree_sitter_c_sharp::LANGUAGE.into()
}

/// `tree_sitter_ruby::LANGUAGE`: the grammar that the key `ruby` names,
/// the same at each call.
#[verifier::external_body]
fn ruby_grammar() -> (l: tree_sitter::Language)
    ensures
        l == grammar("ruby"@),
{
    tree_sitter_ruby::LANGUAGE.into()
}

/// The language keys with a grammar, in alphabetical order.
pub const LANG_KEYS: [&'static str; 13] = [
    "bash", "c", "cpp", "csharp", "go", "java", "javascript", "php", "python", "ruby", "rust",
    "tsx", "typescript",
];

/// Whether there is a grammar for the language key.
pub open spec fn known(key: Seq<char>) -> bool {
    text::listed(LANG_KEYS@, key)
}

/// Which grammars have been used.
pub struct UsedGrammars {
    /// One flag for each of `LANG_KEYS`.
    flags: [bool; 13],
}

impl UsedGrammars {
    /// Whether the grammar at position `i` of `LANG_KEYS` has been used.
    pub closed spec fn used_at(self, i: int) -> bool {
        self.flags@[i]
    }

    /// The keys of the grammars used.
    pub open spec fn keys(self) -> Set<Seq<char>> {
        Set::new(
            |key: Seq<char>|
                exists|i: int|
                    0 <= i < LANG_KEYS@.len() && self.used_at(i) && (#[trigger] LANG_KEYS@[i])@
                        == key,
        )
    }

    /// No grammar has been used.
    pub fn new() -> (r: UsedGrammars)
        ensures
            r.keys() == Set::<Seq<char>>::empty(),
    {
        let r = UsedGrammars { flags: [false; 13] };
        proof {
            assert(r.keys() =~= Set::<Seq<char>>::empty());
        }
        r
    }

    /// Marks the grammar at position `i` of `LANG_KEYS` as used.
    fn mark(&mut self, i: usize)
        requires
            i < LANG_KEYS@.len(),
        ensures
            final(self).keys() == old(self).keys().insert(LANG_KEYS@[i as int]@),
    {
        self.flags[i] = true;
        proof {
            let before = old(self).keys();
            let after = self.keys();
            assert forall|key: Seq<char>| after.contains(key) == before.insert(
                LANG_KEYS@[i as int]@,
            ).contains(key) by {
                if before.contains(key) {
                    let k = choose|k: int|
                        0 <= k < LANG_KEYS@.len() && old(self).used_at(k) && (
                        #[trigger] LANG_KEYS@[k])@ == key;
                    assert(self.used_at(k) && LANG_KEYS@[k]@ == key);
                }
                if key == LANG_KEYS@[i as int]@ {
                    assert(self.used_at(i as int));
                }
            }
            assert(after =~= before.insert(LANG_KEYS@[i as int]@));
        }
    }
}

/// Position of a language key in `LANG_KEYS`.
fn key_index(key: &str) -> (r: Option<usize>)
    ensures
        match r {
            Some(i) => i < LANG_KEYS@.len() && LANG_KEYS@[i as int]@ == key@,
            None => !known(key@),
        },
{
    let mut i: usize = 0;
    while i < LANG_KEYS.len()
        invariant
            i <= LANG_KEYS@.len(),
            forall|k: int| 0 <= k < i ==> (#[trigger] LANG_KEYS@[k])@ != key@,
        decreases LANG_KEYS@.len() - i,
    {
        if text::str_eq(LANG_KEYS[i], key) {
            return Some(i);
        }
        i = i + 1;
    }
    None
}

/// The grammar for a language key, which is marked as used, or `None` where there
/// is none.
pub fn language_for(key: &str, used: &mut UsedGrammars) -> (r: Option<tree_sitter::Language>)
    ensures
        r is Some <==> known(key@),
        r is Some ==> r->0 == grammar(key@),
        final(used).keys() == if known(key@) {
            old(used).keys().insert(key@)
        } else {
            old(used).keys()
        },
{
    let i = match key_index(key) {
        Some(i) => i,
        None => {
            return None;
        },
    };
    used.mark(i);
    let language = match i {
        0 => bash_grammar(),
        1 => c_grammar(),
        2 => cpp_grammar(),
        3 => csharp_grammar(),
        4 => go_grammar(),
        5 => java_grammar(),
        6 => javascript_grammar(),
        7 => php_grammar(),
        8 => python_grammar(),
        9 => ruby_grammar(),
        10 => rust_grammar(),
        11 => tsx_grammar(),
        _ => typescript_grammar(),
    };
    Some(language)
}

/// The keys of `LANG_KEYS` below position `n` that have been used, in order.
pub open spec fn used_below(used: UsedGrammars, n: int) -> Seq<Seq<char>>
    decreases n,
{
    if n <= 0 {
        Seq::empty()
    } else if used.keys().contains(LANG_KEYS@[n - 1]@) {
        used_below(used, n - 1).push(LANG_KEYS@[n - 1]@)
    } else {
        used_below(used, n - 1)
    }
}

/// The keys of the grammars used, in alphabetical order and separated by `, `, or
/// `none`.
pub fn used_grammars_str(used: &UsedGrammars) -> (r: String)
    ensures
        r@ == {
            let keys = used_below(*used, LANG_KEYS@.len() as int);
            if keys.len() == 0 {
                "none"@
            } else {
                text::join(keys, ", "@)
            }
        },
{
    let mut list: Vec<&str> = Vec::new();
    let mut i: usize = 0;
    proof {
        lemma_keys_differ();
    }
    while i < LANG_KEYS.len()
        invariant
            i <= LANG_KEYS@.len(),
            text::slices(list@) == used_below(*used, i as int),
            forall|a: int, b: int|
                0 <= a < b < LANG_KEYS@.len() ==> (#[trigger] LANG_KEYS@[a])@ != (
                #[trigger] LANG_KEYS@[b])@,
        decreases LANG_KEYS@.len() - i,
    {
        let ghost before = list@;
        proof {
            let key = LANG_KEYS@[i as int]@;
            if used.keys().contains(key) {
                let k = choose|k: int|
                    0 <= k < LANG_KEYS@.len() && used.used_at(k) && (#[trigger] LANG_KEYS@[k])@
                        == key;
                assert(k == i);
            }
        }
        if used.flags[i] {
            list.push(LANG_KEYS[i]);
            proof {
                assert(used.used_at(i as int));
                assert(text::slices(list@) =~= text::slices(before).push(LANG_KEYS@[i as int]@));
            }
        }
        i = i + 1;
    }
    if list.len() == 0 {
        return "none".to_string();
    }
    proof {
        assert(text::slices(list@).subrange(0, list@.len() as int) =~= text::slices(list@));
    }
    text::join_slices(&list, 0, list.len(), ", ")
}

/// The language keys differ from each other.
proof fn lemma_keys_differ()
    ensures
        forall|a: int, b: int|
            0 <= a < b < LANG_KEYS@.len() ==> (#[trigger] LANG_KEYS@[a])@ != (
            #[trigger] LANG_KEYS@[b])@,
{
    reveal_strlit("bash");
    reveal_strlit("c");
    reveal_strlit("cpp");
    reveal_strlit("csharp");
    reveal_strlit("go");
    reveal_strlit("java");
    reveal_strlit("javascript");
    reveal_strlit("php");
    reveal_strlit("python");
    reveal_strlit("ruby");
    reveal_strlit("rust");
    reveal_strlit("tsx");
    reveal_strlit("typescript");
    assert(mark_of(LANG_KEYS@[0]@) == (4nat, 'b', 's'));
    assert(mark_of(LANG_KEYS@[1]@) == (1nat, 'c', ' '));
    assert(mark_of(LANG_KEYS@[2]@) == (3nat, 'c', 'p'));
    assert(mark_of(LANG_KEYS@[3]@) == (6nat, 'c', 'h'));
    assert(mark_of(LANG_KEYS@[4]@) == (2nat, 'g', ' '));
    assert(mark_of(LANG_KEYS@[5]@) == (4nat, 'j', 'v'));
    assert(mark_of(LANG_KEYS@[6]@) == (10nat, 'j', 'v'));
    assert(mark_of(LANG_KEYS@[7]@) == (3nat, 'p', 'p'));
    assert(mark_of(LANG_KEYS@[8]@) == (6nat, 'p', 't'));
    assert(mark_of(LANG_KEYS@[9]@) == (4nat, 'r', 'b'));
    assert(mark_of(LANG_KEYS@[10]@) == (4nat, 'r', 's'));
    assert(mark_of(LANG_KEYS@[11]@) == (3nat, 't', 'x'));
    assert(mark_of(LANG_KEYS@[12]@) == (10nat, 't', 'p'));
    assert forall|a: int, b: int| 0 <= a < b < LANG_KEYS@.len() implies (#[trigger] LANG_KEYS@[a])@
        != (#[trigger] LANG_KEYS@[b])@ by {
        assert(a == 0 || a == 1 || a == 2 || a == 3 || a == 4 || a == 5 || a == 6 || a == 7 || a == 8
            || a == 9 || a == 10 || a == 11);
        assert(b == 1 || b == 2 || b == 3 || b == 4 || b == 5 || b == 6 || b == 7 || b == 8 || b == 9
            || b == 10 || b == 11 || b == 12);
        assert(mark_of(LANG_KEYS@[a]@) != mark_of(LANG_KEYS@[b]@));
    }
}

/// Length, first and third character: enough to tell the language keys apart.
spec fn mark_of(s: Seq<char>) -> (nat, char, char) {
    (
        s.len(),
        s[0],
        if s.len() > 2 {
            s[2]
        } else {
            ' '
        },
    )
}

/// The language keys with a grammar, in alphabetical order.
pub open spec fn alphabetical() -> Seq<Seq<char>> {
    seq![
        "bash"@, "c"@, "cpp"@, "csharp"@, "go"@, "java"@, "javascript"@, "php"@, "python"@, "ruby"@, "rust"@, "tsx"@, "typescript"@,
    ]
}

/// These keys have a grammar and no other has; those used are listed in alphabetical
/// order, each once.
pub proof fn law_used_grammars_in_order(key: Seq<char>, used: UsedGrammars)
    ensures
        known(key) <==> alphabetical().contains(key),
        used_below(used, LANG_KEYS@.len() as int) == alphabetical().filter(
            |k: Seq<char>| used.keys().contains(k),
        ),
{
    let all = alphabetical();
    assert(text::slices(LANG_KEYS@) =~= all);
    assert forall|i: int| 0 <= i < all.len() implies (#[trigger] all[i]) == LANG_KEYS@[i]@ by {}
    if known(key) {
        let i = choose|i: int| 0 <= i < LANG_KEYS@.len() && (#[trigger] LANG_KEYS@[i])@ == key;
        assert(all[i] == key);
    }
    if all.contains(key) {
        let i = choose|i: int| 0 <= i < all.len() && all[i] == key;
        assert(LANG_KEYS@[i]@ == key);
    }
    lemma_used_in_order(used, all.len() as int);
    assert(all.take(all.len() as int) =~= all);
}

proof fn lemma_used_in_order(used: UsedGrammars, n: int)
    requires
        0 <= n <= LANG_KEYS@.len(),
        text::slices(LANG_KEYS@) == alphabetical(),
    ensures
        used_below(used, n) == alphabetical().take(n).filter(
            |k: Seq<char>| used.keys().contains(k),
        ),
    decreases n,
{
    reveal(Seq::filter);
    if n > 0 {
        lemma_used_in_order(used, n - 1);
        assert(alphabetical().take(n).drop_last() =~= alphabetical().take(n - 1));
        assert(alphabetical()[n - 1] == LANG_KEYS@[n - 1]@);
    }
}

} // verus!
