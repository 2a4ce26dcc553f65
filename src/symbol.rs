//! The grammar symbol resolver: which exported symbol of a compiled grammar
//! module builds the language.

use vstd::prelude::*;

use crate::text::{chars_of, ends_with, has_prefix, has_suffix, starts_with};

verus! {

#[verifier::external_type_specification]
#[verifier::external_body]
pub struct ExGoblinError(goblin::error::Error);

/// What goblin reads from a module: none when it cannot parse it; `Some(None)`
/// for an object that is not ELF; otherwise the name of each dynamic symbol,
/// in table order, none where the string table holds no name for it. The
/// module's bytes alone decide it.
pub uninterp spec fn dynamic_symbols(module: Seq<u8>) -> Option<Option<Seq<Option<Seq<char>>>>>;

/// A module that starts with the ELF magic number `\x7fELF`.
pub open spec fn is_elf(module: Seq<u8>) -> bool {
    module.len() >= 4 && module[0] == 0x7f && module[1] == 69 && module[2] == 76 && module[3] == 70
}

/// A symbol name as plain characters.
pub open spec fn name_views(names: Seq<Option<String>>) -> Seq<Option<Seq<char>>> {
    names.map_values(|o: Option<String>| match o {
        Some(s) => Some(s@),
        None => None,
    })
}

/// Relies on goblin::Object::parse, the ELF's dynamic symbol table and
/// Strtab::get_at, which gives the name at a symbol's offset or none. The
/// bytes must start with the ELF magic number, so that goblin parses them as
/// ELF only: its parser of `ar` archives can index out of range on a bad
/// symbol index.
#[verifier::external_body]
fn read_dynamic_symbols(module: &[u8]) -> (r: Result<Option<Vec<Option<String>>>, goblin::error::Error>)
    requires
        is_elf(module@),
    ensures
        r is Ok <==> dynamic_symbols(module@) is Some,
        r matches Ok(x) ==> (x is None <==> dynamic_symbols(module@)->0 is None),
        r matches Ok(Some(v)) ==> name_views(v@) == dynamic_symbols(module@)->0->0,
{
    match goblin::Object::parse(module)? {
        goblin::Object::Elf(elf) => Ok(Some(
            elf.dynsyms.iter().map(|sym| elf.dynstrtab.get_at(sym.st_name).map(str::to_owned)).collect(),
        )),
        _ => Ok(None),
    }
}

/// A grammar's language entry point starts with this.
pub const LANG_SYMBOL_PREFIX: &'static str = "tree_sitter_";

/// The hooks of a grammar's external scanner: symbols that carry the language
/// prefix without being its entry point.
pub open spec fn is_scanner_hook(name: Seq<char>) -> bool {
    ||| has_suffix(name, "external_scanner_create"@)
    ||| has_suffix(name, "external_scanner_deserialize"@)
    ||| has_suffix(name, "external_scanner_destroy"@)
    ||| has_suffix(name, "external_scanner_reset"@)
    ||| has_suffix(name, "external_scanner_scan"@)
    ||| has_suffix(name, "external_scanner_serialize"@)
}

/// A name that can be a language entry point.
pub open spec fn is_lang_symbol(name: Seq<char>) -> bool {
    has_prefix(name, LANG_SYMBOL_PREFIX@) && !is_scanner_hook(name)
}

/// The first name of `names` that can be a language entry point; a symbol
/// without a name is passed over.
pub open spec fn first_lang_symbol(names: Seq<Option<Seq<char>>>) -> Option<Seq<char>>
    decreases names.len(),
{
    if names.len() == 0 {
        None
    } else if names[0] is Some && is_lang_symbol(names[0]->0) {
        names[0]
    } else {
        first_lang_symbol(names.drop_first())
    }
}

fn is_scanner_hook_exec(name: &Vec<char>) -> (r: bool)
    ensures
        r == is_scanner_hook(name@),
{
    ends_with(name, "external_scanner_create") || ends_with(name, "external_scanner_deserialize")
        || ends_with(name, "external_scanner_destroy") || ends_with(name, "external_scanner_reset")
        || ends_with(name, "external_scanner_scan") || ends_with(name, "external_scanner_serialize")
}

/// Whether `name` can be a language entry point: it has the language prefix and
/// is none of the external scanner's hooks.
pub fn is_lang_sym(name: &str) -> (r: bool)
    ensures
        r == is_lang_symbol(name@),
{
    let chars = chars_of(name);
    starts_with(&chars, LANG_SYMBOL_PREFIX) && !is_scanner_hook_exec(&chars)
}

/// The first of `names` that can be a language entry point, if any; a
/// symbol without a name is passed over.
pub fn select_lang_sym(names: &Vec<Option<String>>) -> (r: Option<String>)
    ensures
        r matches Some(s) ==> first_lang_symbol(name_views(names@)) == Some(s@),
        r is None ==> first_lang_symbol(name_views(names@)) is None,
{
    let ghost all = name_views(names@);
    let mut i: usize = 0;
    assert(all.skip(0) =~= all);
    while i < names.len()
        invariant
            i <= names@.len(),
            all == name_views(names@),
            first_lang_symbol(all) == first_lang_symbol(all.skip(i as int)),
        decreases names@.len() - i,
    {
        let ghost rest = all.skip(i as int);
        assert(rest[0] == all[i as int]);
        assert(rest.drop_first() =~= all.skip(i + 1));
        match &names[i] {
            Some(name) => {
                if is_lang_sym(name.as_str()) {
                    return Some(name.clone());
                }
            },
            None => {},
        }
        i += 1;
    }
    assert(all.skip(i as int) =~= Seq::<Option<Seq<char>>>::empty());
    None
}

/// Why no entry point could be named.
#[derive(Debug)]
pub enum ResolveError {
    /// The module could not be parsed as an object file.
    ModuleParse(goblin::error::Error),
    /// The module is not an ELF object, so no dynamic symbol table can be
    /// read from it: a parse error of its own, found before goblin is called.
    NotElf,
    /// No exported symbol can be the language's entry point.
    NotFound,
}

fn elf_magic(module: &[u8]) -> (r: bool)
    ensures
        r == is_elf(module@),
{
    module.len() >= 4 && module[0] == 0x7f && module[1] == 69 && module[2] == 76 && module[3] == 70
}

/// The entry point to call in a grammar module whose bytes are `module`: the
/// explicit symbol when one is given, unchecked; otherwise the first dynamic
/// symbol that carries the language prefix and is not a scanner hook. A module
/// that cannot be parsed, or is not ELF, is a parse error; `NotFound` is for
/// an ELF module that parses but has no entry point.
pub fn resolve_lang_sym(module: &[u8], explicit: Option<String>) -> (r: Result<String, ResolveError>)
    ensures
        explicit matches Some(e) ==> r matches Ok(s) && s@ == e@,
        explicit is None && !is_elf(module@) ==> r matches Err(ResolveError::NotElf),
        explicit is None && is_elf(module@) ==> match dynamic_symbols(module@) {
            None => r matches Err(ResolveError::ModuleParse(_)),
            Some(None) => r matches Err(ResolveError::NotElf),
            Some(Some(names)) => match first_lang_symbol(names) {
                Some(s) => r matches Ok(x) && x@ == s,
                None => r matches Err(ResolveError::NotFound),
            },
        },
{
    match explicit {
        Some(e) => Ok(e),
        None => {
            if !elf_magic(module) {
                return Err(ResolveError::NotElf);
            }
            match read_dynamic_symbols(module) {
                Err(e) => Err(ResolveError::ModuleParse(e)),
                Ok(None) => Err(ResolveError::NotElf),
                Ok(Some(names)) => match select_lang_sym(&names) {
                    Some(s) => Ok(s),
                    None => Err(ResolveError::NotFound),
                },
            }
        },
    }
}

/// A resolved entry point is never one of the external scanner's hooks, and
/// always carries the language prefix.
pub proof fn lemma_never_scanner_hook(names: Seq<Option<Seq<char>>>)
    ensures
        first_lang_symbol(names) matches Some(s) ==> !is_scanner_hook(s) && has_prefix(
            s,
            LANG_SYMBOL_PREFIX@,
        ),
    decreases names.len(),
{
    if names.len() > 0 && !(names[0] is Some && is_lang_symbol(names[0]->0)) {
        lemma_never_scanner_hook(names.drop_first());
    }
}

} // verus!
