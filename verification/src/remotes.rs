//! The remotes that the settings of a repository name.

use vstd::prelude::*;
use vstd::slice::slice_subrange;

use crate::cli::fetch_maps::{
    definition_views, parse_definition, DefinitionView, FetchDefinition,
};
use crate::cli::listing::RemoteInfo;
use crate::config::{
    get_setting_from_ini, ini_contents, ini_list_sections, ini_sections, opt_texts, trimmed,
    values_of, Settings,
};
use crate::text::{
    chars_of, concat_texts, ends_with, lemma_push_contains, same_text, starts_with, string_of,
    text_ends_with, text_starts_with, texts,
};

verus! {

broadcast use vstd::string::group_string_axioms;

/// The name of the section about a remote.
pub open spec fn remote_section(name: Seq<char>) -> Seq<char> {
    "remote \""@ + name + "\""@
}

/// The remote that a section is about, if it is about one.
pub open spec fn remote_of_section(section: Option<Seq<char>>) -> Option<Seq<char>> {
    match section {
        Some(s) => if s.len() >= 9 && starts_with(s, "remote \""@) && ends_with(s, "\""@) {
            Some(s.subrange(8, s.len() - 1))
        } else {
            None
        },
        None => None,
    }
}

/// The remotes that sections are about, in order.
pub open spec fn remotes_of(sections: Seq<Option<Seq<char>>>) -> Seq<Seq<char>>
    decreases sections.len(),
{
    if sections.len() == 0 {
        Seq::empty()
    } else {
        let before = remotes_of(sections.drop_last());
        match remote_of_section(sections.last()) {
            Some(name) => before.push(name),
            None => before,
        }
    }
}

/// The definitions that texts stand for; texts that are none do not count.
pub open spec fn definitions_in(list: Seq<Seq<char>>) -> Seq<DefinitionView>
    decreases list.len(),
{
    if list.len() == 0 {
        Seq::empty()
    } else {
        let before = definitions_in(list.drop_last());
        match parse_definition(list.last()) {
            Some(d) => before.push(d),
            None => before,
        }
    }
}

/// The values of a setting of a remote.
pub open spec fn remote_values(settings: Settings, name: Seq<char>, key: Seq<char>) -> Seq<
    Seq<char>,
> {
    trimmed(values_of(settings, remote_section(name), key))
}

/// Whether a remote is as the settings say.  Where they have no address to push to, it is pushed
/// to where it is fetched from.
pub open spec fn is_remote(settings: Settings, name: Seq<char>, remote: RemoteInfo) -> bool {
    &&& remote.name@ == name
    &&& texts(remote.fetch_urls@) == remote_values(settings, name, "url"@)
    &&& texts(remote.push_urls@) == if remote_values(settings, name, "pushurl"@).len() > 0 {
        remote_values(settings, name, "pushurl"@)
    } else {
        remote_values(settings, name, "url"@)
    }
    &&& definition_views(remote.fetch_defs@) == definitions_in(
        remote_values(settings, name, "fetch"@),
    )
}

fn name_in_section(section: &Option<String>) -> (r: Option<String>)
    ensures
        match r {
            Some(name) => remote_of_section(crate::text::opt_text(*section)) == Some(name@),
            None => remote_of_section(crate::text::opt_text(*section)) is None,
        },
{
    match section {
        None => None,
        Some(s) => {
            let cs = chars_of(s.as_str());
            if cs.len() >= 9 && text_starts_with(&cs, "remote \"") && text_ends_with(&cs, "\"") {
                let name = slice_subrange(&cs, 8, cs.len() - 1);
                Some(string_of(name))
            } else {
                None
            }
        },
    }
}

/// The remotes that sections are about, in order.
pub fn remotes_in_sections(sections: &[Option<String>]) -> (r: Vec<String>)
    ensures
        texts(r@) == remotes_of(opt_texts(sections@)),
{
    let ghost all = opt_texts(sections@);
    let mut out: Vec<String> = Vec::new();
    let mut i: usize = 0;
    assert(all.take(0) =~= Seq::empty());
    assert(texts(out@) =~= Seq::empty());
    while i < sections.len()
        invariant
            i <= sections@.len(),
            all == opt_texts(sections@),
            texts(out@) == remotes_of(all.take(i as int)),
        decreases sections@.len() - i,
    {
        let ghost before = texts(out@);
        assert(all.take(i + 1).drop_last() =~= all.take(i as int));
        assert(all.take(i + 1).last() == crate::text::opt_text(sections@[i as int]));
        if let Some(name) = name_in_section(&sections[i]) {
            out.push(name);
            assert(texts(out@) =~= before.push(name@));
        }
        i = i + 1;
    }
    assert(all.take(i as int) =~= all);
    out
}

/// The names of the remotes.
pub fn list_remote_names(config: &ini::Ini) -> (r: Vec<String>)
    ensures
        texts(r@) == remotes_of(ini_sections(*config)),
{
    let sections = ini_list_sections(config);
    remotes_in_sections(sections.as_slice())
}

/// The definitions that texts stand for.
pub fn read_definitions(list: &[String]) -> (r: Vec<FetchDefinition>)
    ensures
        definition_views(r@) == definitions_in(texts(list@)),
{
    let ghost all = texts(list@);
    let mut out: Vec<FetchDefinition> = Vec::new();
    let mut i: usize = 0;
    assert(all.take(0) =~= Seq::empty());
    assert(definition_views(out@) =~= Seq::empty());
    while i < list.len()
        invariant
            i <= list@.len(),
            all == texts(list@),
            definition_views(out@) == definitions_in(all.take(i as int)),
        decreases list@.len() - i,
    {
        let ghost before = definition_views(out@);
        assert(all.take(i + 1).drop_last() =~= all.take(i as int));
        assert(all.take(i + 1).last() == list@[i as int]@);
        if let Some(d) = FetchDefinition::from_str(list[i].as_str()) {
            out.push(d);
            assert(definition_views(out@) =~= before.push(d@));
        }
        i = i + 1;
    }
    assert(all.take(i as int) =~= all);
    out
}

fn has_section(sections: &[Option<String>], name: &str) -> (r: bool)
    ensures
        r == opt_texts(sections@).contains(Some(name@)),
{
    let mut i: usize = 0;
    while i < sections.len()
        invariant
            i <= sections@.len(),
            forall|j: int| 0 <= j < i ==> #[trigger] opt_texts(sections@)[j] != Some(name@),
        decreases sections@.len() - i,
    {
        if let Some(s) = &sections[i] {
            if same_text(s.as_str(), name) {
                assert(opt_texts(sections@)[i as int] == Some(name@));
                return true;
            }
        }
        i = i + 1;
    }
    false
}

/// The remote with a name, if there is one.
pub fn get_remote(config: &ini::Ini, name: &str) -> (r: Option<RemoteInfo>)
    ensures
        match r {
            Some(remote) => ini_sections(*config).contains(Some(remote_section(name@)))
                && is_remote(ini_contents(*config), name@, remote),
            None => !ini_sections(*config).contains(Some(remote_section(name@))),
        },
{
    let mut section = concat_texts("remote \"", name);
    section.append("\"");
    let sections = ini_list_sections(config);
    if !has_section(sections.as_slice(), section.as_str()) {
        return None;
    }
    let fetch_urls = get_setting_from_ini(config, section.as_str(), "url");
    let mut push_urls = get_setting_from_ini(config, section.as_str(), "pushurl");
    assert(texts(push_urls@).len() == push_urls@.len());
    if push_urls.len() == 0 {
        push_urls = crate::repo::commits::copy_texts(fetch_urls.as_slice());
    }
    let definitions = get_setting_from_ini(config, section.as_str(), "fetch");
    let fetch_defs = read_definitions(definitions.as_slice());
    Some(RemoteInfo { name: name.to_string(), fetch_urls, push_urls, fetch_defs })
}

/// The section about a remote is about that remote.
pub proof fn theorem_section_names_remote(name: Seq<char>)
    ensures
        remote_of_section(Some(remote_section(name))) == Some(name),
{
    reveal_strlit("remote \"");
    reveal_strlit("\"");
    let s = remote_section(name);
    assert(s.take(8) =~= "remote \""@);
    assert(s.skip(s.len() - 1) =~= "\""@);
    assert(s.subrange(8, s.len() - 1) =~= name);
}

/// A section is about a remote where it has the name of the section about it.
proof fn lemma_remote_of_section(section: Option<Seq<char>>, name: Seq<char>)
    ensures
        remote_of_section(section) == Some(name) <==> section == Some(remote_section(name)),
{
    theorem_section_names_remote(name);
    reveal_strlit("remote \"");
    reveal_strlit("\"");
    if remote_of_section(section) == Some(name) {
        let s = section->0;
        let t = remote_section(name);
        assert(s.take(8) == "remote \""@);
        assert(s.skip(s.len() - 1) == "\""@);
        assert(s.len() == t.len());
        assert forall|i: int| 0 <= i < s.len() implies s[i] == t[i] by {
            if i < 8 {
                assert(s.take(8)[i] == s[i]);
            } else if i == s.len() - 1 {
                assert(s.skip(s.len() - 1)[0] == s[i]);
            } else {
                assert(s.subrange(8, s.len() - 1)[i - 8] == s[i]);
            }
        }
        assert(s =~= t);
    }
}

/// The remotes are those with a section about them, all of them.
pub proof fn theorem_remotes(sections: Seq<Option<Seq<char>>>, name: Seq<char>)
    ensures
        remotes_of(sections).contains(name) <==> sections.contains(Some(remote_section(name))),
    decreases sections.len(),
{
    if sections.len() > 0 {
        let before = sections.drop_last();
        let last = sections.last();
        theorem_remotes(before, name);
        lemma_remote_of_section(last, name);
        lemma_push_contains(remotes_of(before), remote_of_section(last), name);
        lemma_push_contains(before, Some(last), Some(remote_section(name)));
        assert(before.push(last) =~= sections);
    }
}

/// The remotes come in the order of their sections.
pub proof fn theorem_remotes_follow(a: Seq<Option<Seq<char>>>, b: Seq<Option<Seq<char>>>)
    ensures
        remotes_of(a + b) == remotes_of(a) + remotes_of(b),
    decreases b.len(),
{
    if b.len() == 0 {
        assert(a + b =~= a);
        assert(remotes_of(a) + remotes_of(b) =~= remotes_of(a));
    } else {
        theorem_remotes_follow(a, b.drop_last());
        assert((a + b).drop_last() =~= a + b.drop_last());
        assert(remotes_of(a + b) =~= remotes_of(a) + remotes_of(b));
    }
}

/// The definitions are those that the texts stand for, all of them.
pub proof fn theorem_definitions(list: Seq<Seq<char>>, d: DefinitionView)
    ensures
        definitions_in(list).contains(d) <==> exists|i: int|
            0 <= i < list.len() && parse_definition(#[trigger] list[i]) == Some(d),
    decreases list.len(),
{
    if list.len() > 0 {
        let before = list.drop_last();
        let n = list.len() - 1;
        theorem_definitions(before, d);
        lemma_push_contains(definitions_in(before), parse_definition(list[n]), d);
        if exists|i: int| 0 <= i < before.len() && parse_definition(#[trigger] before[i]) == Some(
            d,
        ) {
            let i = choose|i: int|
                0 <= i < before.len() && parse_definition(#[trigger] before[i]) == Some(d);
            assert(list[i] == before[i]);
        }
        if exists|i: int| 0 <= i < list.len() && parse_definition(#[trigger] list[i]) == Some(d) {
            let i = choose|i: int|
                0 <= i < list.len() && parse_definition(#[trigger] list[i]) == Some(d);
            if i < n {
                assert(before[i] == list[i]);
            }
        }
    }
}

/// The definitions come in the order of the texts.
pub proof fn theorem_definitions_follow(a: Seq<Seq<char>>, b: Seq<Seq<char>>)
    ensures
        definitions_in(a + b) == definitions_in(a) + definitions_in(b),
    decreases b.len(),
{
    if b.len() == 0 {
        assert(a + b =~= a);
        assert(definitions_in(a) + definitions_in(b) =~= definitions_in(a));
    } else {
        theorem_definitions_follow(a, b.drop_last());
        assert((a + b).drop_last() =~= a + b.drop_last());
        assert(definitions_in(a + b) =~= definitions_in(a) + definitions_in(b));
    }
}

/// A remote has all addresses that are set for it for fetching, and for pushing those that are set
/// for that, or else the same ones.
pub proof fn theorem_addresses_of_a_remote(settings: Settings, name: Seq<char>, remote: RemoteInfo)
    requires
        is_remote(settings, name, remote),
    ensures
        ({
            let urls = trimmed(values_of(settings, "remote \""@ + name + "\""@, "url"@));
            let push_urls = trimmed(values_of(settings, "remote \""@ + name + "\""@, "pushurl"@));
            &&& remote.name@ == name
            &&& texts(remote.fetch_urls@) == urls
            &&& push_urls.len() == 0 ==> texts(remote.push_urls@) == urls
            &&& push_urls.len() > 0 ==> texts(remote.push_urls@) == push_urls
        }),
{
}

} // verus!
