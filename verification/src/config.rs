//! Settings.

use vstd::prelude::*;

use crate::numerals::{parse_number, parsed_number};
use crate::stores::{parse_branch, BranchLocation, BranchSpec, BranchView, LocationView};
use crate::text::{chars_of, concat_texts, opt_str, opt_text, texts, trim, trim_text};

verus! {

broadcast use vstd::string::group_string_axioms;

/// `ini::Ini`, a configuration: sections of keys with values.
#[verifier::external_type_specification]
#[verifier::external_body]
pub struct ExIni(ini::Ini);

/// The values of each key of a section.
pub type Settings = Map<(Seq<char>, Seq<char>), Seq<Seq<char>>>;

/// The values of the keys of the named sections of a configuration; of sections with the same
/// name those of the first one.
pub uninterp spec fn ini_contents(config: ini::Ini) -> Map<
    (Seq<char>, Seq<char>),
    Seq<Seq<char>>,
>;

/// The values of the keys of the configuration that a text is read as, if it is one.
pub uninterp spec fn parsed_ini(text: Seq<char>) -> Option<
    Map<(Seq<char>, Seq<char>), Seq<Seq<char>>>,
>;

/// No values of any key.
pub open spec fn no_settings() -> Settings {
    Map::empty()
}

/// `ini::Ini::new` makes a configuration without named sections.
#[verifier::external_body]
fn ini_new() -> (r: ini::Ini)
    ensures
        ini_contents(r) == no_settings(),
{
    ini::Ini::new()
}

/// `ini::Ini::load_from_str` reads a configuration from its text.
#[verifier::external_body]
fn ini_from_str(text: &str) -> (r: Option<ini::Ini>)
    ensures
        match r {
            Some(config) => parsed_ini(text@) == Some(ini_contents(config)),
            None => parsed_ini(text@) is None,
        },
{
    ini::Ini::load_from_str(text).ok()
}

/// The values of a key of a section; none where there is no such key.
pub open spec fn values_of(settings: Settings, section: Seq<char>, key: Seq<char>) -> Seq<
    Seq<char>,
> {
    if settings.contains_key((section, key)) {
        settings[(section, key)]
    } else {
        Seq::empty()
    }
}

/// `ini::Ini::section` and `ini::Properties::get_all` find the values of a key of a section.
#[verifier::external_body]
fn ini_get_all(config: &ini::Ini, section: &str, key: &str) -> (r: Vec<String>)
    ensures
        texts(r@) == values_of(ini_contents(*config), section@, key@),
{
    config.section(Some(section)).map(|s| s.get_all(key).map(String::from).collect()).unwrap_or_default()
}

/// The names of the sections of a configuration in order, each once; the part in front of the
/// first section has none.
pub uninterp spec fn ini_sections(config: ini::Ini) -> Seq<Option<Seq<char>>>;

/// What optional names are.
pub open spec fn opt_texts(v: Seq<Option<String>>) -> Seq<Option<Seq<char>>> {
    v.map_values(|o: Option<String>| opt_text(o))
}

/// `ini::Ini::sections` gives the names of the sections in order.
#[verifier::external_body]
pub(crate) fn ini_list_sections(config: &ini::Ini) -> (r: Vec<Option<String>>)
    ensures
        opt_texts(r@) == ini_sections(*config),
{
    config.sections().map(|s| s.map(String::from)).collect()
}

/// The settings without those of a section.
pub open spec fn without_section(settings: Settings, section: Seq<char>) -> Settings {
    settings.remove_keys(settings.dom().filter(|k: (Seq<char>, Seq<char>)| k.0 == section))
}

/// `ini::Ini::delete` removes the sections of a name.
#[verifier::external_body]
fn ini_delete(config: &mut ini::Ini, section: &str)
    ensures
        ini_contents(*final(config)) == without_section(ini_contents(*old(config)), section@),
{
    config.delete(Some(section));
}

/// `ini::SectionSetter::set` replaces the values of a key of a section by one, and adds the
/// section or the key where it is missing.
#[verifier::external_body]
fn ini_set(config: &mut ini::Ini, section: &str, key: &str, value: &str)
    ensures
        ini_contents(*final(config)) == ini_contents(*old(config)).insert(
            (section@, key@),
            seq![value@],
        ),
{
    config.with_section(Some(section)).set(key, value);
}

/// `whoami::username` finds out the name of the user, which depends on the machine.
#[verifier::external_body]
fn system_username() -> Option<String> {
    whoami::username().ok()
}

/// `whoami::hostname` finds out the name of the machine, which depends on the machine.
#[verifier::external_body]
fn system_hostname() -> Option<String> {
    whoami::hostname().ok()
}

/// The settings that do not belong to a repository: those of the system, and those of the user.
pub struct GlobalConfig {
    /// The settings of the system.
    pub system_config: ini::Ini,
    /// The settings of the user.
    pub user_config: ini::Ini,
}

/// The settings in a text; none where there is no text, or it is not a configuration.
pub open spec fn settings_in(text: Option<Seq<char>>) -> Settings {
    match text {
        None => Map::empty(),
        Some(t) => match parsed_ini(t) {
            Some(settings) => settings,
            None => Map::empty(),
        },
    }
}

/// Texts without the white space at either end.
pub open spec fn trimmed(list: Seq<Seq<char>>) -> Seq<Seq<char>> {
    list.map_values(|s: Seq<char>| trim(s))
}

/// The values of a setting: first those of the system, then those of the user.
pub open spec fn setting_values(
    system: Settings,
    user: Settings,
    section: Seq<char>,
    key: Seq<char>,
) -> Seq<Seq<char>> {
    trimmed(values_of(system, section, key)) + trimmed(values_of(user, section, key))
}

/// The last value of a setting, if it has one.
pub open spec fn last_value(values: Seq<Seq<char>>) -> Option<Seq<char>> {
    if values.len() > 0 {
        Some(values.last())
    } else {
        None
    }
}

/// The first text that is there.
pub open spec fn first_there(
    a: Option<Seq<char>>,
    b: Option<Seq<char>>,
    c: Option<Seq<char>>,
    d: Option<Seq<char>>,
) -> Option<Seq<char>> {
    if a is Some {
        a
    } else if b is Some {
        b
    } else if c is Some {
        c
    } else {
        d
    }
}

/// Who did something: a name, and an address in angle brackets.  Each comes from the
/// environment, or from the setting for the role, or from that for the user, or from the
/// system.
pub open spec fn identity(
    env_name: Option<Seq<char>>,
    env_email: Option<Seq<char>>,
    role_name: Option<Seq<char>>,
    role_email: Option<Seq<char>>,
    user_name: Option<Seq<char>>,
    user_email: Option<Seq<char>>,
    username: Option<Seq<char>>,
    hostname: Option<Seq<char>>,
) -> Seq<char> {
    let name = match first_there(env_name, role_name, user_name, username) {
        Some(n) => n,
        None => "(unknown)"@,
    };
    let user = match username {
        Some(u) => u,
        None => "unknown"@,
    };
    let host = match hostname {
        Some(h) => h,
        None => "unknown"@,
    };
    let email = match first_there(env_email, role_email, user_email, None) {
        Some(e) => e,
        None => user + "@"@ + host,
    };
    name + " <"@ + email + ">"@
}

fn load_ini_safe(text: Option<&str>) -> (r: ini::Ini)
    ensures
        ini_contents(r) == settings_in(opt_str(text)),
{
    match text {
        None => ini_new(),
        Some(t) => match ini_from_str(t) {
            Some(config) => config,
            None => ini_new(),
        },
    }
}

/// Texts without the white space at either end.
pub fn trimmed_values(values: &[String]) -> (r: Vec<String>)
    ensures
        texts(r@) == trimmed(texts(values@)),
{
    let mut out: Vec<String> = Vec::new();
    let mut i: usize = 0;
    while i < values.len()
        invariant
            i <= values@.len(),
            out@.len() == i,
            forall|j: int| 0 <= j < i ==> (#[trigger] out@[j])@ == trim(values@[j]@),
        decreases values@.len() - i,
    {
        out.push(trim_text(values[i].as_str()));
        i = i + 1;
    }
    assert(texts(out@) =~= trimmed(texts(values@)));
    out
}

/// The last value of a setting, if it has one.
pub fn last_setting(values: &[String]) -> (r: Option<String>)
    ensures
        opt_text(r) == last_value(texts(values@)),
{
    assert(texts(values@).len() == values@.len());
    if values.len() > 0 {
        let last: usize = values.len() - 1;
        assert(texts(values@)[last as int] == values@[last as int]@);
        Some(values[last].clone())
    } else {
        None
    }
}

pub(crate) fn get_setting_from_ini(config: &ini::Ini, section: &str, key: &str) -> (r: Vec<String>)
    ensures
        texts(r@) == trimmed(values_of(ini_contents(*config), section@, key@)),
{
    let values = ini_get_all(config, section, key);
    trimmed_values(values.as_slice())
}

fn first_of_four(
    a: Option<String>,
    b: Option<String>,
    c: Option<String>,
    d: Option<String>,
) -> (r: Option<String>)
    ensures
        opt_text(r) == first_there(opt_text(a), opt_text(b), opt_text(c), opt_text(d)),
{
    if a.is_some() {
        a
    } else if b.is_some() {
        b
    } else if c.is_some() {
        c
    } else {
        d
    }
}

fn copy_opt(o: Option<&str>) -> (r: Option<String>)
    ensures
        opt_text(r) == opt_str(o),
{
    match o {
        Some(s) => Some(s.to_string()),
        None => None,
    }
}

impl GlobalConfig {
    /// The settings of the system.
    pub open spec fn system(&self) -> Settings {
        ini_contents(self.system_config)
    }

    /// The settings of the user.
    pub open spec fn user(&self) -> Settings {
        ini_contents(self.user_config)
    }

    /// The last value of a setting.
    pub open spec fn setting(&self, section: Seq<char>, key: Seq<char>) -> Option<Seq<char>> {
        last_value(setting_values(self.system(), self.user(), section, key))
    }

    /// The settings in the texts of two files, each of which may be missing or not valid.
    pub fn from_files(system_text: Option<&str>, user_text: Option<&str>) -> (r: Self)
        ensures
            r.system() == settings_in(opt_str(system_text)),
            r.user() == settings_in(opt_str(user_text)),
    {
        GlobalConfig {
            system_config: load_ini_safe(system_text),
            user_config: load_ini_safe(user_text),
        }
    }

    /// All values of a setting, first those of the system, then those of the user.
    pub fn get_setting_all(&self, section: &str, key: &str) -> (r: Vec<String>)
        ensures
            texts(r@) == setting_values(self.system(), self.user(), section@, key@),
    {
        let mut values = get_setting_from_ini(&self.system_config, section, key);
        let mut more = get_setting_from_ini(&self.user_config, section, key);
        let ghost a = values@;
        let ghost b = more@;
        values.append(&mut more);
        assert(texts(values@) =~= texts(a) + texts(b));
        values
    }

    /// The last value of a setting, if it has one.
    pub fn get_setting(&self, section: &str, key: &str) -> (r: Option<String>)
        ensures
            opt_text(r) == self.setting(section@, key@),
    {
        let values = self.get_setting_all(section, key);
        last_setting(values.as_slice())
    }

    /// The name of the user, if it is set.
    pub fn user_name(&self) -> (r: Option<String>)
        ensures
            opt_text(r) == self.setting("user"@, "name"@),
    {
        self.get_setting("user", "name")
    }

    /// The address of the user, if it is set.
    pub fn user_email(&self) -> (r: Option<String>)
        ensures
            opt_text(r) == self.setting("user"@, "email"@),
    {
        self.get_setting("user", "email")
    }

    /// The name of the author, if it is set.
    pub fn author_name(&self) -> (r: Option<String>)
        ensures
            opt_text(r) == self.setting("author"@, "name"@),
    {
        self.get_setting("author", "name")
    }

    /// The address of the author, if it is set.
    pub fn author_email(&self) -> (r: Option<String>)
        ensures
            opt_text(r) == self.setting("author"@, "email"@),
    {
        self.get_setting("author", "email")
    }

    /// The name of the committer, if it is set.
    pub fn committer_name(&self) -> (r: Option<String>)
        ensures
            opt_text(r) == self.setting("committer"@, "name"@),
    {
        self.get_setting("committer", "name")
    }

    /// The address of the committer, if it is set.
    pub fn committer_email(&self) -> (r: Option<String>)
        ensures
            opt_text(r) == self.setting("committer"@, "email"@),
    {
        self.get_setting("committer", "email")
    }

    /// The name and address of the author, given those in the environment.
    pub fn author(&self, env_name: Option<&str>, env_email: Option<&str>) -> (r: String)
        ensures
            exists|username: Option<Seq<char>>, hostname: Option<Seq<char>>|
                r@ == #[trigger] identity(
                    opt_str(env_name),
                    opt_str(env_email),
                    self.setting("author"@, "name"@),
                    self.setting("author"@, "email"@),
                    self.setting("user"@, "name"@),
                    self.setting("user"@, "email"@),
                    username,
                    hostname,
                ),
    {
        identity_text(
            env_name,
            env_email,
            self.author_name(),
            self.author_email(),
            self.user_name(),
            self.user_email(),
            system_username(),
            system_hostname(),
        )
    }

    /// The name and address of the committer, given those in the environment.
    pub fn committer(&self, env_name: Option<&str>, env_email: Option<&str>) -> (r: String)
        ensures
            exists|username: Option<Seq<char>>, hostname: Option<Seq<char>>|
                r@ == #[trigger] identity(
                    opt_str(env_name),
                    opt_str(env_email),
                    self.setting("committer"@, "name"@),
                    self.setting("committer"@, "email"@),
                    self.setting("user"@, "name"@),
                    self.setting("user"@, "email"@),
                    username,
                    hostname,
                ),
    {
        identity_text(
            env_name,
            env_email,
            self.committer_name(),
            self.committer_email(),
            self.user_name(),
            self.user_email(),
            system_username(),
            system_hostname(),
        )
    }
}

/// Who did something: a name, and an address in angle brackets.
pub fn identity_text(
    env_name: Option<&str>,
    env_email: Option<&str>,
    role_name: Option<String>,
    role_email: Option<String>,
    user_name: Option<String>,
    user_email: Option<String>,
    username: Option<String>,
    hostname: Option<String>,
) -> (r: String)
    ensures
        r@ == identity(
            opt_str(env_name),
            opt_str(env_email),
            opt_text(role_name),
            opt_text(role_email),
            opt_text(user_name),
            opt_text(user_email),
            opt_text(username),
            opt_text(hostname),
        ),
{
    let user = match &username {
        Some(u) => u.clone(),
        None => "unknown".to_string(),
    };
    let host = match &hostname {
        Some(h) => h.clone(),
        None => "unknown".to_string(),
    };
    let mut out = match first_of_four(copy_opt(env_name), role_name, user_name, username) {
        Some(n) => n,
        None => "(unknown)".to_string(),
    };
    out.append(" <");
    match first_of_four(copy_opt(env_email), role_email, user_email, None) {
        Some(e) => {
            out.append(e.as_str());
        },
        None => {
            let ghost before = out@;
            out.append(user.as_str());
            out.append("@");
            out.append(host.as_str());
            assert(out@ =~= before + (user@ + "@"@ + host@));
        },
    }
    out.append(">");
    out
}

/// The settings of a new repository.
pub open spec fn default_settings() -> Settings {
    Map::empty().insert(("core"@, "repositoryformatversion"@), seq!["0"@]).insert(
        ("core"@, "filemode"@),
        seq!["false"@],
    ).insert(("core"@, "bare"@), seq!["false"@])
}

/// The settings of a new repository: the fewest that other programs ask for.
pub fn default_repo_config() -> (r: ini::Ini)
    ensures
        ini_contents(r) == default_settings(),
{
    let mut config = ini_new();
    ini_set(&mut config, "core", "repositoryformatversion", "0");
    ini_set(&mut config, "core", "filemode", "false");
    ini_set(&mut config, "core", "bare", "false");
    config
}

/// Where the settings of the user may be.
pub struct UserFilePlaces {
    /// The directory.
    pub directory: String,
    /// The components of paths below it, of which the first one that exists counts.
    pub candidates: Vec<Vec<String>>,
}

/// What lists of components are.
pub open spec fn path_views(s: Seq<Vec<String>>) -> Seq<Seq<Seq<char>>> {
    s.map_values(|p: Vec<String>| texts(p@))
}

/// Where the settings of the user may be, from the directory for configuration in the
/// environment and the home directory.
pub fn find_user_file(xdg_config_home: Option<&str>, home_dir: Option<&str>) -> (r: Option<
    UserFilePlaces,
>)
    ensures
        match r {
            Some(places) => match (xdg_config_home, home_dir) {
                (Some(dir), _) => places.directory@ == dir@ && path_views(places.candidates@)
                    == seq![seq![".gitconfig"@], seq!["git"@, "config"@]],
                (None, Some(dir)) => places.directory@ == dir@ && path_views(places.candidates@)
                    == seq![seq![".gitconfig"@], seq![".config"@, "git"@, "config"@]],
                (None, None) => false,
            },
            None => xdg_config_home is None && home_dir is None,
        },
{
    let mut first: Vec<String> = Vec::new();
    first.push(".gitconfig".to_string());
    assert(texts(first@) =~= seq![".gitconfig"@]);
    let mut second: Vec<String> = Vec::new();
    let directory = match (xdg_config_home, home_dir) {
        (Some(dir), _) => {
            second.push("git".to_string());
            second.push("config".to_string());
            assert(texts(second@) =~= seq!["git"@, "config"@]);
            dir.to_string()
        },
        (None, Some(dir)) => {
            second.push(".config".to_string());
            second.push("git".to_string());
            second.push("config".to_string());
            assert(texts(second@) =~= seq![".config"@, "git"@, "config"@]);
            dir.to_string()
        },
        (None, None) => {
            return None;
        },
    };
    let mut candidates: Vec<Vec<String>> = Vec::new();
    candidates.push(first);
    candidates.push(second);
    assert(path_views(candidates@) =~= seq![texts(first@), texts(second@)]);
    Some(UserFilePlaces { directory, candidates })
}

/// Where the settings of the user hold a value, the last one of them counts, whatever the
/// settings of the system are.
pub proof fn theorem_user_setting_counts(
    system: Settings,
    user: Settings,
    section: Seq<char>,
    key: Seq<char>,
)
    requires
        values_of(user, section, key).len() > 0,
    ensures
        last_value(setting_values(system, user, section, key)) == Some(
            trim(values_of(user, section, key).last()),
        ),
{
    let values = values_of(user, section, key);
    assert(trimmed(values).last() == trim(values.last()));
}

/// The name of the section of a configuration that is about a local branch.
pub open spec fn branch_section(name: Seq<char>) -> Seq<char> {
    "branch \""@ + name + "\""@
}

/// The branch of a remote that follows a branch of its server, given the name of the remote and
/// the path of the branch on the server.
pub open spec fn follower(remote: Option<Seq<char>>, merge: Option<Seq<char>>) -> Option<
    BranchView,
> {
    match (remote, merge) {
        (Some(remote), Some(path)) => match parse_branch(path) {
            Some(b) => if b.location is Local {
                Some(BranchView { location: LocationView::Remote(remote), name: b.name })
            } else {
                None
            },
            None => None,
        },
        _ => None,
    }
}

/// The branch of a remote that the settings of a repository map a local branch to: the setting
/// `remote` names the remote, and `merge` the branch on its server.
pub open spec fn mapped_branch(settings: Settings, name: Seq<char>) -> Option<BranchView> {
    follower(
        last_value(trimmed(values_of(settings, branch_section(name), "remote"@))),
        last_value(trimmed(values_of(settings, branch_section(name), "merge"@))),
    )
}

/// What an optional branch is.
pub open spec fn opt_branch(b: Option<BranchSpec>) -> Option<BranchView> {
    match b {
        Some(b) => Some(b@),
        None => None,
    }
}

/// The branch of a remote that follows a branch of its server.
pub fn following_branch(remote: Option<&str>, merge: Option<&str>) -> (r: Option<BranchSpec>)
    ensures
        opt_branch(r) == follower(opt_str(remote), opt_str(merge)),
{
    match (remote, merge) {
        (Some(remote), Some(path)) => match BranchSpec::from_str(path) {
            Ok(b) => match b.location {
                BranchLocation::Local => Some(
                    BranchSpec::new(b.name.as_str(), BranchLocation::Remote(remote.to_string())),
                ),
                BranchLocation::Remote(_) => None,
            },
            Err(_) => None,
        },
        _ => None,
    }
}

/// The branch of a remote that the settings of a repository map a local branch to.
pub fn tracking_branch(config: &ini::Ini, branch_name: &str) -> (r: Option<BranchSpec>)
    ensures
        opt_branch(r) == mapped_branch(ini_contents(*config), branch_name@),
{
    let mut section = concat_texts("branch \"", branch_name);
    section.append("\"");
    let remotes = get_setting_from_ini(config, section.as_str(), "remote");
    let paths = get_setting_from_ini(config, section.as_str(), "merge");
    let remote = last_setting(remotes.as_slice());
    let path = last_setting(paths.as_slice());
    let remote_name: Option<&str> = match &remote {
        Some(r) => Some(r.as_str()),
        None => None,
    };
    let merge: Option<&str> = match &path {
        Some(p) => Some(p.as_str()),
        None => None,
    };
    following_branch(remote_name, merge)
}

/// Why the settings of a repository do not give the version of its format.
#[derive(Clone, Copy, Debug, PartialEq, Eq, Structural)]
pub enum VersionError {
    /// They are not a valid configuration.
    Malformed,
    /// The section `core` is missing, or does not set the version.
    Missing,
    /// The version is not a number.
    NotANumber,
}

/// Whether a result is the version of the format of a repository, given the values that are set.
pub open spec fn is_version(values: Seq<Seq<char>>, r: Result<u64, VersionError>) -> bool {
    if values.len() == 0 {
        r == Err::<u64, VersionError>(VersionError::Missing)
    } else {
        match r {
            Ok(n) => parsed_number(values[0], 10) == Some(n as nat),
            Err(e) => e == VersionError::NotANumber && (parsed_number(values[0], 10) matches Some(n)
                ==> n > u64::MAX),
        }
    }
}

/// Whether a result is the version of the format of a repository, from the text of its settings.
pub open spec fn version_read(text: Seq<char>, r: Result<u64, VersionError>) -> bool {
    match parsed_ini(text) {
        None => r == Err::<u64, VersionError>(VersionError::Malformed),
        Some(settings) => is_version(
            values_of(settings, "core"@, "repositoryformatversion"@),
            r,
        ),
    }
}

/// The version of the format of a repository, from the values that are set for it.
pub fn version_of_values(values: &[String]) -> (r: Result<u64, VersionError>)
    ensures
        is_version(texts(values@), r),
{
    assert(texts(values@).len() == values@.len());
    if values.len() == 0 {
        return Err(VersionError::Missing);
    }
    assert(texts(values@)[0] == values@[0]@);
    match parse_number(&chars_of(values[0].as_str()), 10) {
        Some(n) => Ok(n),
        None => Err(VersionError::NotANumber),
    }
}

/// The version of the format of a repository, from the text of its settings.
pub fn repository_version(config_text: &str) -> (r: Result<u64, VersionError>)
    ensures
        version_read(config_text@, r),
{
    match ini_from_str(config_text) {
        None => Err(VersionError::Malformed),
        Some(config) => {
            let values = ini_get_all(&config, "core", "repositoryformatversion");
            version_of_values(values.as_slice())
        },
    }
}

/// Removes the settings of a branch.
pub fn delete_branch_config(config: &mut ini::Ini, branch: &BranchSpec)
    ensures
        ini_contents(*final(config)) == without_section(
            ini_contents(*old(config)),
            branch_section(branch@.name),
        ),
{
    let mut section = concat_texts("branch \"", branch.name.as_str());
    section.append("\"");
    ini_delete(config, section.as_str());
}

/// A branch whose settings were removed is mapped to no branch of a remote, and what others are
/// mapped to stays the same.
pub proof fn theorem_deleted_branch_is_not_mapped(
    settings: Settings,
    name: Seq<char>,
    other: Seq<char>,
)
    requires
        other != name,
    ensures
        mapped_branch(without_section(settings, branch_section(name)), name) is None,
        mapped_branch(without_section(settings, branch_section(name)), other) == mapped_branch(
            settings,
            other,
        ),
{
    let a = branch_section(name);
    let b = branch_section(other);
    let start = "branch \""@.len() as int;
    assert(a.subrange(start, start + name.len()) =~= name);
    assert(b.subrange(start, start + other.len()) =~= other);
    assert(a != b) by {
        if a == b {
            assert(name.len() == other.len());
        }
    }
    let after = without_section(settings, a);
    assert(trimmed(values_of(after, a, "remote"@)).len() == 0);
    assert(values_of(after, b, "remote"@) == values_of(settings, b, "remote"@));
    assert(values_of(after, b, "merge"@) == values_of(settings, b, "merge"@));
}

/// Where the user has not set anything, the last value of the system counts; where neither has,
/// there is no value.
pub proof fn theorem_system_setting_counts(
    system: Settings,
    user: Settings,
    section: Seq<char>,
    key: Seq<char>,
)
    requires
        values_of(user, section, key).len() == 0,
    ensures
        last_value(setting_values(system, user, section, key)) == if values_of(
            system,
            section,
            key,
        ).len() > 0 {
            Some(trim(values_of(system, section, key).last()))
        } else {
            None
        },
{
    let values = values_of(system, section, key);
    let all = setting_values(system, user, section, key);
    assert(all =~= trimmed(values));
    if values.len() > 0 {
        assert(trimmed(values).last() == trim(values.last()));
    }
}

/// The name in an identity is the first that is given of the one in the environment, that of the
/// role, that of the user and the name of the account; the address the first that is given of the
/// one in the environment, that of the role and that of the user.
pub proof fn theorem_identity(
    names: Seq<Option<Seq<char>>>,
    emails: Seq<Option<Seq<char>>>,
    hostname: Option<Seq<char>>,
    i: int,
    j: int,
    name: Seq<char>,
    email: Seq<char>,
)
    requires
        names.len() == 4,
        emails.len() == 3,
        0 <= i < 4,
        0 <= j < 3,
        names[i] == Some(name),
        forall|k: int| 0 <= k < i ==> #[trigger] names[k] is None,
        emails[j] == Some(email),
        forall|k: int| 0 <= k < j ==> #[trigger] emails[k] is None,
    ensures
        identity(
            names[0],
            emails[0],
            names[1],
            emails[1],
            names[2],
            emails[2],
            names[3],
            hostname,
        ) == name + " <"@ + email + ">"@,
{
}

/// An identity without an address has the name of the account at the name of the machine in its
/// place.
pub proof fn theorem_identity_without_address(
    name: Seq<char>,
    account: Seq<char>,
    hostname: Seq<char>,
)
    ensures
        identity(Some(name), None, None, None, None, None, Some(account), Some(hostname)) == name
            + " <"@ + (account + "@"@ + hostname) + ">"@,
        identity(None, None, None, None, None, None, None, None) == "(unknown)"@ + " <"@ + (
        "unknown"@ + "@"@ + "unknown"@) + ">"@,
{
}

/// A branch that is set to follow a branch of a remote follows that one.
pub proof fn theorem_followed_branch(
    settings: Settings,
    name: Seq<char>,
    remote: Seq<char>,
    followed: Seq<char>,
)
    requires
        followed.len() > 0,
        values_of(settings, branch_section(name), "remote"@).len() > 0,
        trim(values_of(settings, branch_section(name), "remote"@).last()) == remote,
        values_of(settings, branch_section(name), "merge"@).len() > 0,
        trim(values_of(settings, branch_section(name), "merge"@).last()) == "refs/heads/"@
            + followed,
    ensures
        mapped_branch(settings, name) == Some(
            BranchView { location: LocationView::Remote(remote), name: followed },
        ),
{
    let b = BranchView { location: LocationView::Local, name: followed };
    crate::stores::theorem_branch_round_trip(b);
    reveal_strlit("refs/heads/");
    reveal_strlit("refs/heads");
    reveal_strlit("/");
    assert("refs/heads/"@ + followed =~= crate::stores::branch_text(b));
    let remotes = values_of(settings, branch_section(name), "remote"@);
    let merges = values_of(settings, branch_section(name), "merge"@);
    assert(trimmed(remotes).last() == trim(remotes.last()));
    assert(trimmed(merges).last() == trim(merges.last()));
}

} // verus!
