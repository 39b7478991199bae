//! Decisions behind the app's commands: refusing builds that are not for
//! Forever, what an install records, where a catalogue install comes from,
//! which install is picked automatically, and the command line.
use vstd::prelude::*;
use crate::catalog::{CatalogEntry, EntrySpec};
use crate::packages::{package_views, pick_source, spec_pick_source, Package, PackageSpec};
use crate::sources::{spec_id, spec_kind, Source, SourceSpec};
use crate::state::{Installed, InstalledSpec};
use crate::order::{is_perm, stable_order, stably_sorted};
use crate::sources::{spec_label, Remote};
use crate::text::{chars_eq, chars_of};
use crate::num::{parse_u64, parse_unsigned};
use crate::sources::{parse_github_repo, spec_parse_github_repo};
use crate::wow::{empty_addon, strs, AddonFolder, WowInstall};

verus! {

// ------------------------------------------------------------------ Forever builds

/// A release that says it is not for Forever is refused unless the user
/// allows it or the catalogue vouches for a Forever build.
pub open spec fn refuses_non_forever(remote_forever: Option<bool>, allow: bool, vouched: Option<bool>) -> bool {
    remote_forever == Some(false) && !allow && vouched != Some(true)
}

/// `Err("NOT_FOREVER")` when the install must be confirmed first.
pub fn check_forever(remote_forever: Option<bool>, allow_non_forever: bool, vouched: Option<bool>) -> (r: Result<(), String>)
    ensures
        r is Err <==> refuses_non_forever(remote_forever, allow_non_forever, vouched),
        r matches Err(e) ==> e@ == "NOT_FOREVER"@,
{
    if remote_forever == Some(false) && !allow_non_forever && vouched != Some(true) {
        Err(String::from_str("NOT_FOREVER"))
    } else {
        Ok(())
    }
}

// ------------------------------------------------------------------ install records

/// What an install records about a package: where it came from, the
/// version, the folders placed and when.
pub fn installed_record(src: &Source, version: &str, folders: Vec<String>, installed_at: u64) -> (r: Installed)
    ensures
        r@ == (InstalledSpec {
            source: spec_kind(src@),
            source_id: spec_id(src@),
            version: version@,
            folders: strs(folders@),
            installed_at,
        }),
{
    Installed {
        source: String::from_str(src.kind()),
        source_id: src.id(),
        version: String::from_str(version),
        folders,
        installed_at,
    }
}

// ------------------------------------------------------------------ catalogue installs

pub open spec fn no_source_message() -> Seq<char> {
    "This catalogue entry has no downloadable source"@
}

pub open spec fn wago_key_message() -> Seq<char> {
    "This addon is on Wago: add your free Wago API key in Settings first"@
}

/// Where a catalogue install downloads from: the entry's source as for an
/// update; an entry with none is link-only, and a Wago source needs a key.
pub open spec fn spec_catalog_install_source(e: EntrySpec, has_wago: bool) -> Result<SourceSpec, Seq<char>> {
    match spec_pick_source(Some(e), empty_addon(seq![]), has_wago) {
        None => Err(no_source_message()),
        Some(SourceSpec::Wago(w)) => if has_wago { Ok(SourceSpec::Wago(w)) } else { Err(wago_key_message()) },
        Some(s) => Ok(s),
    }
}

pub open spec fn source_result(r: Result<Source, String>) -> Result<SourceSpec, Seq<char>> {
    match r {
        Ok(s) => Ok(s@),
        Err(e) => Err(e@),
    }
}

pub fn catalog_install_source(entry: &CatalogEntry, has_wago: bool) -> (r: Result<Source, String>)
    ensures
        source_result(r) == spec_catalog_install_source(entry@, has_wago),
{
    let dummy = AddonFolder::default();
    match pick_source(Some(entry), &dummy, has_wago) {
        None => Err(String::from_str("This catalogue entry has no downloadable source")),
        Some(Source::Wago(w)) => {
            if has_wago {
                Ok(Source::Wago(w))
            } else {
                Err(String::from_str("This addon is on Wago: add your free Wago API key in Settings first"))
            }
        },
        Some(s) => Ok(s),
    }
}

// ------------------------------------------------------------------ installs

/// Position of the first install with the Forever flavour.
pub open spec fn first_forever(v: Seq<WowInstall>) -> Option<int>
    decreases v.len(),
{
    if v.len() == 0 {
        None
    } else {
        match first_forever(v.drop_last()) {
            Some(i) => Some(i),
            None => if v.last().flavor@ == "forever"@ { Some(v.len() - 1) } else { None },
        }
    }
}

/// The install path to select after a search: the first Forever install,
/// when none is selected yet.
pub open spec fn spec_auto_pick(current: Option<Seq<char>>, found: Seq<WowInstall>) -> Option<Seq<char>> {
    if current is Some {
        None
    } else {
        match first_forever(found) {
            Some(i) => Some(found[i].path@),
            None => None,
        }
    }
}

pub fn auto_pick_install(current: Option<&str>, found: &Vec<WowInstall>) -> (r: Option<String>)
    ensures
        match r {
            Some(p) => spec_auto_pick(match current { Some(c) => Some(c@), None => None }, found@) == Some(p@),
            None => spec_auto_pick(match current { Some(c) => Some(c@), None => None }, found@) is None,
        },
{
    if current.is_some() {
        return None;
    }
    let fv = chars_of("forever");
    let mut i: usize = 0;
    while i < found.len()
        invariant
            i <= found.len(),
            fv@ == "forever"@,
            current is None,
            first_forever(found@.take(i as int)) is None,
        decreases found.len() - i,
    {
        assert(found@.take(i + 1).drop_last() =~= found@.take(i as int));
        let f = chars_of(found[i].flavor.as_str());
        if chars_eq(&f, &fv) {
            assert(first_forever(found@.take(i + 1)) == Some(i as int));
            proof { lemma_first_forever_prefix(found@, i + 1); }
            return Some(String::from_str(found[i].path.as_str()));
        }
        i = i + 1;
    }
    assert(found@.take(found.len() as int) =~= found@);
    None
}

proof fn lemma_first_forever_prefix(v: Seq<WowInstall>, k: int)
    requires
        0 <= k <= v.len(),
        first_forever(v.take(k)) is Some,
    ensures
        first_forever(v) == first_forever(v.take(k)),
    decreases v.len() - k,
{
    if k < v.len() {
        assert(v.take(k + 1).drop_last() =~= v.take(k));
        lemma_first_forever_prefix(v, k + 1);
    } else {
        assert(v.take(k) =~= v);
    }
}

// ------------------------------------------------------------------ packages by key

/// Position of the first package with key `key`.
pub open spec fn spec_package_index(keys: Seq<Seq<char>>, key: Seq<char>) -> Option<int>
    decreases keys.len(),
{
    if keys.len() == 0 {
        None
    } else {
        match spec_package_index(keys.drop_last(), key) {
            Some(i) => Some(i),
            None => if keys.last() == key { Some(keys.len() - 1) } else { None },
        }
    }
}

pub open spec fn package_keys(v: Seq<Package>) -> Seq<Seq<char>> {
    v.map_values(|p: Package| p.key@)
}

proof fn lemma_index_prefix(keys: Seq<Seq<char>>, key: Seq<char>, k: int)
    requires
        0 <= k <= keys.len(),
        spec_package_index(keys.take(k), key) is Some,
    ensures
        spec_package_index(keys, key) == spec_package_index(keys.take(k), key),
    decreases keys.len() - k,
{
    if k < keys.len() {
        assert(keys.take(k + 1).drop_last() =~= keys.take(k));
        lemma_index_prefix(keys, key, k + 1);
    } else {
        assert(keys.take(k) =~= keys);
    }
}

/// The position of the package with key `key` in a scan.
pub fn package_index(pkgs: &Vec<Package>, key: &str) -> (r: Option<usize>)
    ensures
        match r {
            Some(i) => spec_package_index(package_keys(pkgs@), key@) == Some(i as int),
            None => spec_package_index(package_keys(pkgs@), key@) is None,
        },
{
    let k = chars_of(key);
    let ghost keys = package_keys(pkgs@);
    let mut i: usize = 0;
    while i < pkgs.len()
        invariant
            i <= pkgs.len(),
            k@ == key@,
            keys == package_keys(pkgs@),
            spec_package_index(keys.take(i as int), key@) is None,
        decreases pkgs.len() - i,
    {
        assert(keys.take(i + 1).drop_last() =~= keys.take(i as int));
        let c = chars_of(pkgs[i].key.as_str());
        if chars_eq(&c, &k) {
            assert(keys.take(i + 1).last() == keys[i as int]);
            proof { lemma_index_prefix(keys, key@, i + 1); }
            return Some(i);
        }
        i = i + 1;
    }
    assert(keys.take(pkgs.len() as int) =~= keys);
    None
}

/// The source an update of `pkg` downloads from.
pub fn update_source(pkg: &Package) -> (r: Result<Source, String>)
    ensures
        match pkg.source {
            Some(s) => source_result(r) == Ok::<SourceSpec, Seq<char>>(s@),
            None => source_result(r) == Err::<SourceSpec, Seq<char>>("This addon has no update source"@),
        },
{
    match &pkg.source {
        Some(s) => Ok(s.clone()),
        None => Err(String::from_str("This addon has no update source")),
    }
}

// ------------------------------------------------------------------ command line

/// A command of the headless mode (`--cli`).
#[derive(Debug)]
pub enum CliCommand {
    /// Find WoW installs (and select the first Forever one if none is set).
    Installs,
    /// Select a product folder.
    Use(String),
    /// List the installed packages.
    Scan,
    /// List the installed packages with their latest releases.
    Check,
    /// Print the catalogue.
    Catalog,
    /// Dry run of every catalogue entry's download.
    ResolveAll,
    /// Dry run of the named catalogue entries' downloads.
    Resolve(Vec<String>),
    /// Update a package; `force` installs a build not marked for Forever.
    Update { key: String, force: bool },
    /// Install a catalogue entry; `force` as for `Update`.
    Install { id: String, force: bool },
}

pub enum CliSpec {
    Installs,
    Use(Seq<char>),
    Scan,
    Check,
    Catalog,
    ResolveAll,
    Resolve(Seq<Seq<char>>),
    Update(Seq<char>, bool),
    Install(Seq<char>, bool),
}

impl View for CliCommand {
    type V = CliSpec;

    open spec fn view(&self) -> CliSpec {
        match self {
            CliCommand::Installs => CliSpec::Installs,
            CliCommand::Use(p) => CliSpec::Use(p@),
            CliCommand::Scan => CliSpec::Scan,
            CliCommand::Check => CliSpec::Check,
            CliCommand::Catalog => CliSpec::Catalog,
            CliCommand::ResolveAll => CliSpec::ResolveAll,
            CliCommand::Resolve(ids) => CliSpec::Resolve(strs(ids@)),
            CliCommand::Update { key, force } => CliSpec::Update(key@, *force),
            CliCommand::Install { id, force } => CliSpec::Install(id@, *force),
        }
    }
}

pub open spec fn usage_message() -> Seq<char> {
    "usage: addonforge --cli installs | use <dir> | scan | check | catalog | resolve <id..>|all | update <key> [--force] | install <catalog-id> [--force]"@
}

/// The command line after `--cli`: the command word, then its arguments;
/// `--force` anywhere allows builds not marked for Forever.
pub open spec fn spec_parse_cli(args: Seq<Seq<char>>) -> Result<CliSpec, Seq<char>> {
    let cmd = if args.len() > 0 { args[0] } else { "help"@ };
    let force = args.contains("--force"@);
    if cmd == "installs"@ {
        Ok(CliSpec::Installs)
    } else if cmd == "use"@ {
        if args.len() > 1 { Ok(CliSpec::Use(args[1])) } else { Err("usage: use <product folder>"@) }
    } else if cmd == "scan"@ {
        Ok(CliSpec::Scan)
    } else if cmd == "check"@ {
        Ok(CliSpec::Check)
    } else if cmd == "catalog"@ {
        Ok(CliSpec::Catalog)
    } else if cmd == "resolve"@ {
        if args.len() > 1 && args[1] == "all"@ { Ok(CliSpec::ResolveAll) } else { Ok(CliSpec::Resolve(args.skip(1))) }
    } else if cmd == "update"@ {
        if args.len() > 1 { Ok(CliSpec::Update(args[1], force)) } else { Err("usage: update <package key>"@) }
    } else if cmd == "install"@ {
        if args.len() > 1 { Ok(CliSpec::Install(args[1], force)) } else { Err("usage: install <catalog id>"@) }
    } else {
        Err(usage_message())
    }
}

pub open spec fn cli_result(r: Result<CliCommand, String>) -> Result<CliSpec, Seq<char>> {
    match r {
        Ok(c) => Ok(c@),
        Err(e) => Err(e@),
    }
}

fn is_word(s: &String, w: &str) -> (r: bool)
    ensures
        r == (s@ == w@),
{
    let a = chars_of(s.as_str());
    let b = chars_of(w);
    chars_eq(&a, &b)
}

fn copy_string(s: &String) -> (r: String)
    ensures
        r@ == s@,
{
    String::from_str(s.as_str())
}

pub fn parse_cli(args: &Vec<String>) -> (r: Result<CliCommand, String>)
    ensures
        cli_result(r) == spec_parse_cli(strs(args@)),
{
    let ghost a = strs(args@);
    let mut force = false;
    let mut i: usize = 0;
    while i < args.len()
        invariant
            i <= args.len(),
            a == strs(args@),
            force == a.take(i as int).contains("--force"@),
        decreases args.len() - i,
    {
        assert(a.take(i + 1) =~= a.take(i as int).push(a[i as int]));
        if is_word(&args[i], "--force") {
            assert(a.take(i + 1)[i as int] == "--force"@);
            force = true;
        }
        i = i + 1;
    }
    assert(a.take(args.len() as int) =~= a);
    if args.len() == 0 {
        proof {
            reveal_strlit("help");
            reveal_strlit("installs");
            reveal_strlit("use");
            reveal_strlit("scan");
            reveal_strlit("check");
            reveal_strlit("catalog");
            reveal_strlit("resolve");
            reveal_strlit("update");
            reveal_strlit("install");
            assert("help"@[0] == 'h');
            assert("installs"@ != "help"@ && "use"@ != "help"@ && "scan"@ != "help"@ && "check"@ != "help"@);
            assert("catalog"@ != "help"@ && "resolve"@ != "help"@ && "update"@ != "help"@ && "install"@ != "help"@);
        }
        return Err(String::from_str("usage: addonforge --cli installs | use <dir> | scan | check | catalog | resolve <id..>|all | update <key> [--force] | install <catalog-id> [--force]"));
    }
    let cmd = &args[0];
    if is_word(cmd, "installs") {
        Ok(CliCommand::Installs)
    } else if is_word(cmd, "use") {
        if args.len() > 1 {
            Ok(CliCommand::Use(copy_string(&args[1])))
        } else {
            Err(String::from_str("usage: use <product folder>"))
        }
    } else if is_word(cmd, "scan") {
        Ok(CliCommand::Scan)
    } else if is_word(cmd, "check") {
        Ok(CliCommand::Check)
    } else if is_word(cmd, "catalog") {
        Ok(CliCommand::Catalog)
    } else if is_word(cmd, "resolve") {
        if args.len() > 1 && is_word(&args[1], "all") {
            Ok(CliCommand::ResolveAll)
        } else {
            let mut ids: Vec<String> = Vec::new();
            let mut j: usize = 1;
            while j < args.len()
                invariant
                    1 <= j <= args.len(),
                    a == strs(args@),
                    strs(ids@) == a.subrange(1, j as int),
                decreases args.len() - j,
            {
                let ghost before = ids@;
                let c = copy_string(&args[j]);
                ids.push(c);
                assert(ids@ == before.push(c));
                assert(strs(ids@) =~= strs(before).push(c@));
                assert(a[j as int] == args@[j as int]@);
                j = j + 1;
                assert(strs(ids@) =~= a.subrange(1, j as int));
            }
            assert(a.subrange(1, args.len() as int) =~= a.skip(1));
            Ok(CliCommand::Resolve(ids))
        }
    } else if is_word(cmd, "update") {
        if args.len() > 1 {
            Ok(CliCommand::Update { key: copy_string(&args[1]), force })
        } else {
            Err(String::from_str("usage: update <package key>"))
        }
    } else if is_word(cmd, "install") {
        if args.len() > 1 {
            Ok(CliCommand::Install { id: copy_string(&args[1]), force })
        } else {
            Err(String::from_str("usage: install <catalog id>"))
        }
    } else {
        Err(String::from_str("usage: addonforge --cli installs | use <dir> | scan | check | catalog | resolve <id..>|all | update <key> [--force] | install <catalog-id> [--force]"))
    }
}

// ------------------------------------------------------------------ dry runs

/// The catalogue entries a dry run looks at: all of them, or those whose id
/// is named (in catalogue order).
pub open spec fn spec_resolve_targets(ids: Option<Seq<Seq<char>>>, e: EntrySpec) -> bool {
    match ids {
        Some(v) => v.contains(e.id),
        None => true,
    }
}

fn names_contain(v: &Vec<String>, s: &String) -> (r: bool)
    ensures
        r == strs(v@).contains(s@),
{
    let c = chars_of(s.as_str());
    let mut i: usize = 0;
    while i < v.len()
        invariant
            i <= v.len(),
            c@ == s@,
            forall|j: int| 0 <= j < i ==> strs(v@)[j] != s@,
        decreases v.len() - i,
    {
        let d = chars_of(v[i].as_str());
        if chars_eq(&d, &c) {
            assert(strs(v@)[i as int] == s@);
            return true;
        }
        i = i + 1;
    }
    false
}

/// Positions of the catalogue entries a dry run resolves.
pub fn resolve_targets(addons: &Vec<CatalogEntry>, ids: Option<&Vec<String>>) -> (r: Vec<usize>)
    ensures
        forall|k: int| 0 <= k < r@.len() ==> r@[k] < addons@.len(),
        forall|a: int, b: int| 0 <= a < b < r@.len() ==> r@[a] < r@[b],
        forall|i: int| 0 <= i < addons@.len() ==> (r@.contains(i as usize)
            <==> spec_resolve_targets(match ids { Some(v) => Some(strs(v@)), None => None }, #[trigger] addons@[i]@)),
{
    let mut out: Vec<usize> = Vec::new();
    let mut i: usize = 0;
    while i < addons.len()
        invariant
            i <= addons.len(),
            forall|k: int| 0 <= k < out@.len() ==> out@[k] < i,
            forall|a: int, b: int| 0 <= a < b < out@.len() ==> out@[a] < out@[b],
            forall|q: int| 0 <= q < i ==> (out@.contains(q as usize)
                <==> spec_resolve_targets(match ids { Some(v) => Some(strs(v@)), None => None }, #[trigger] addons@[q]@)),
        decreases addons.len() - i,
    {
        let keep = match ids {
            Some(v) => names_contain(v, &addons[i].id),
            None => true,
        };
        let ghost before = out@;
        if keep {
            out.push(i);
        }
        proof {
            assert forall|q: int| 0 <= q < i + 1 implies (out@.contains(q as usize)
                <==> spec_resolve_targets(match ids { Some(v) => Some(strs(v@)), None => None }, #[trigger] addons@[q]@)) by {
                if q < i {
                    if before.contains(q as usize) {
                        let k = choose|k: int| 0 <= k < before.len() && before[k] == q as usize;
                        assert(out@[k] == q as usize);
                    }
                    if out@.contains(q as usize) {
                        let k = choose|k: int| 0 <= k < out@.len() && out@[k] == q as usize;
                        if k < before.len() {
                            assert(before[k] == q as usize);
                        }
                    }
                } else {
                    if keep {
                        assert(out@[before.len() as int] == i);
                    } else if out@.contains(q as usize) {
                        let k = choose|k: int| 0 <= k < out@.len() && out@[k] == q as usize;
                        assert(before[k] < i);
                    }
                }
            }
        }
        i = i + 1;
    }
    out
}

/// One line of a dry run: what would be downloaded for a catalogue entry.
#[derive(Debug)]
pub struct ResolveRow {
    pub id: String,
    /// The source's label; `None` for a link-only entry.
    pub source: Option<String>,
    pub ok: bool,
    pub version: Option<String>,
    pub forever: Option<bool>,
    pub file: Option<String>,
    pub error: Option<String>,
}

pub struct RowSpec {
    pub id: Seq<char>,
    pub source: Option<Seq<char>>,
    pub ok: bool,
    pub version: Option<Seq<char>>,
    pub forever: Option<bool>,
    pub file: Option<Seq<char>>,
    pub error: Option<Seq<char>>,
}

pub open spec fn ostring(o: Option<String>) -> Option<Seq<char>> {
    match o {
        Some(s) => Some(s@),
        None => None,
    }
}

impl View for ResolveRow {
    type V = RowSpec;

    open spec fn view(&self) -> RowSpec {
        RowSpec {
            id: self.id@,
            source: ostring(self.source),
            ok: self.ok,
            version: ostring(self.version),
            forever: self.forever,
            file: ostring(self.file),
            error: ostring(self.error),
        }
    }
}

/// The dry-run line for entry `id`: the source picked (none for a
/// link-only entry, which reads as the error `link-only`) and what
/// looking up its latest release gave.
pub open spec fn spec_resolve_row(id: Seq<char>, source: Option<SourceSpec>, result: Result<crate::sources::RemoteSpec, Seq<char>>) -> RowSpec {
    let res = match source {
        Some(_) => result,
        None => Err("link-only"@),
    };
    RowSpec {
        id,
        source: match source { Some(s) => Some(spec_label(s)), None => None },
        ok: res is Ok,
        version: match res { Ok(r) => Some(r.version), Err(_) => None },
        forever: match res { Ok(r) => r.forever, Err(_) => None },
        file: match res { Ok(r) => Some(r.filename), Err(_) => None },
        error: match res { Ok(_) => None, Err(e) => Some(e) },
    }
}

/// Builds a dry-run line; `result` is only looked at when there is a source.
pub fn resolve_row(id: &str, source: Option<&Source>, result: Result<Remote, String>) -> (r: ResolveRow)
    ensures
        r@ == spec_resolve_row(id@, match source { Some(s) => Some(s@), None => None }, crate::sources::remote_result(result)),
{
    let label = match source {
        Some(s) => Some(s.label()),
        None => None,
    };
    let res = match source {
        Some(_) => result,
        None => Err(String::from_str("link-only")),
    };
    match res {
        Ok(r) => ResolveRow {
            id: String::from_str(id),
            source: label,
            ok: true,
            version: Some(r.version),
            forever: r.forever,
            file: Some(r.filename),
            error: None,
        },
        Err(e) => ResolveRow {
            id: String::from_str(id),
            source: label,
            ok: false,
            version: None,
            forever: None,
            file: None,
            error: Some(e),
        },
    }
}

fn copy_opt(o: &Option<String>) -> (r: Option<String>)
    ensures
        ostring(r) == ostring(*o),
{
    match o {
        Some(s) => Some(String::from_str(s.as_str())),
        None => None,
    }
}

impl ResolveRow {
    /// A field-for-field copy.
    pub fn duplicate(&self) -> (r: Self)
        ensures
            r@ == self@,
    {
        ResolveRow {
            id: String::from_str(self.id.as_str()),
            source: copy_opt(&self.source),
            ok: self.ok,
            version: copy_opt(&self.version),
            forever: self.forever,
            file: copy_opt(&self.file),
            error: copy_opt(&self.error),
        }
    }
}

pub open spec fn row_views(v: Seq<ResolveRow>) -> Seq<RowSpec> {
    v.map_values(|r: ResolveRow| r@)
}

pub open spec fn row_ids(v: Seq<RowSpec>) -> Seq<Seq<char>> {
    v.map_values(|r: RowSpec| r.id)
}

/// Dry-run lines ordered by id (stable for equal ids).
pub fn sort_rows(rows: Vec<ResolveRow>) -> (r: Vec<ResolveRow>)
    ensures
        exists|idx: Seq<usize>| #![trigger is_perm(idx, rows@.len())]
            is_perm(idx, rows@.len()) && stably_sorted(row_ids(row_views(rows@)), idx)
            && row_views(r@) == idx.map_values(|i: usize| row_views(rows@)[i as int]),
{
    let ghost rv = row_views(rows@);
    let mut keys: Vec<Vec<char>> = Vec::new();
    let mut i: usize = 0;
    while i < rows.len()
        invariant
            i <= rows.len(),
            keys@.len() == i,
            forall|j: int| 0 <= j < i ==> (#[trigger] keys@[j])@ == rows@[j].id@,
        decreases rows.len() - i,
    {
        keys.push(chars_of(rows[i].id.as_str()));
        i = i + 1;
    }
    let idx = stable_order(&keys);
    assert(keys@.map_values(|k: Vec<char>| k@) =~= row_ids(rv));
    let mut out: Vec<ResolveRow> = Vec::new();
    let mut n: usize = 0;
    while n < idx.len()
        invariant
            n <= idx.len(),
            is_perm(idx@, rows@.len()),
            rv == row_views(rows@),
            out@.len() == n,
            forall|k: int| 0 <= k < n ==> (#[trigger] out@[k])@ == rv[idx@[k] as int],
        decreases idx.len() - n,
    {
        out.push(rows[idx[n]].duplicate());
        n = n + 1;
    }
    assert(row_views(out@) =~= idx@.map_values(|i: usize| rv[i as int]));
    out
}

// ------------------------------------------------------------------ pinned and ignored packages

/// The Installed list as shown: a package whose key is ignored is left
/// out, and a pinned package's update is held back (never offered).
pub open spec fn spec_shown(pkgs: Seq<PackageSpec>, pinned: Seq<Seq<char>>, ignored: Seq<Seq<char>>) -> Seq<PackageSpec>
    decreases pkgs.len(),
{
    if pkgs.len() == 0 {
        seq![]
    } else {
        let r = spec_shown(pkgs.drop_last(), pinned, ignored);
        let p = pkgs.last();
        if ignored.contains(p.key) {
            r
        } else if pinned.contains(p.key) {
            r.push(PackageSpec { update_available: false, ..p })
        } else {
            r.push(p)
        }
    }
}

pub fn apply_user_choices(pkgs: Vec<Package>, pinned: &Vec<String>, ignored: &Vec<String>) -> (r: Vec<Package>)
    ensures
        package_views(r@) == spec_shown(package_views(pkgs@), strs(pinned@), strs(ignored@)),
{
    let ghost pv = package_views(pkgs@);
    let mut out: Vec<Package> = Vec::new();
    let mut i: usize = 0;
    while i < pkgs.len()
        invariant
            i <= pkgs.len(),
            pv == package_views(pkgs@),
            package_views(out@) == spec_shown(pv.take(i as int), strs(pinned@), strs(ignored@)),
        decreases pkgs.len() - i,
    {
        assert(pv.take(i + 1).drop_last() =~= pv.take(i as int));
        assert(pv.take(i + 1).last() == pkgs@[i as int]@);
        let ghost before = package_views(out@);
        if !names_contain(ignored, &pkgs[i].key) {
            let mut p = pkgs[i].duplicate();
            if names_contain(pinned, &pkgs[i].key) {
                p.update_available = false;
            }
            out.push(p);
            assert(package_views(out@) =~= before.push(out@[out@.len() - 1]@));
        }
        i = i + 1;
    }
    assert(pv.take(pkgs.len() as int) =~= pv);
    out
}

/// What the user chose holds in the list shown: no ignored package is in
/// it, no pinned package is offered an update, and every other package is
/// there unchanged, in order.
pub proof fn law_user_choices(pkgs: Seq<PackageSpec>, pinned: Seq<Seq<char>>, ignored: Seq<Seq<char>>)
    ensures
        forall|k: int| 0 <= k < spec_shown(pkgs, pinned, ignored).len()
            ==> !ignored.contains((#[trigger] spec_shown(pkgs, pinned, ignored)[k]).key),
        forall|k: int| 0 <= k < spec_shown(pkgs, pinned, ignored).len()
            && pinned.contains((#[trigger] spec_shown(pkgs, pinned, ignored)[k]).key)
            ==> !spec_shown(pkgs, pinned, ignored)[k].update_available,
        (forall|k: int| 0 <= k < pkgs.len() ==> !ignored.contains(#[trigger] pkgs[k].key) && !pinned.contains(pkgs[k].key))
            ==> spec_shown(pkgs, pinned, ignored) == pkgs,
    decreases pkgs.len(),
{
    if pkgs.len() > 0 {
        law_user_choices(pkgs.drop_last(), pinned, ignored);
        let r = spec_shown(pkgs.drop_last(), pinned, ignored);
        let s = spec_shown(pkgs, pinned, ignored);
        assert forall|k: int| 0 <= k < s.len() implies !ignored.contains((#[trigger] s[k]).key) by {
            if k < r.len() {
                assert(s[k] == r[k]);
            }
        }
        assert forall|k: int| 0 <= k < s.len() && pinned.contains((#[trigger] s[k]).key) implies !s[k].update_available by {
            if k < r.len() {
                assert(s[k] == r[k]);
            }
        }
        if forall|k: int| 0 <= k < pkgs.len() ==> !ignored.contains(#[trigger] pkgs[k].key) && !pinned.contains(pkgs[k].key) {
            assert forall|k: int| 0 <= k < pkgs.drop_last().len() implies !ignored.contains(#[trigger] pkgs.drop_last()[k].key) && !pinned.contains(pkgs.drop_last()[k].key) by {
                assert(pkgs.drop_last()[k] == pkgs[k]);
            }
            assert(!ignored.contains(pkgs[pkgs.len() - 1].key));
            assert(s =~= pkgs);
        }
    }
}

// ------------------------------------------------------------------ more commands

/// The commands of the command line besides [`CliCommand`]: the actions
/// on single packages and settings, the addon list, and diagnostics.
#[derive(Debug)]
pub enum ExtraCommand {
    /// Delete a package's folders.
    Remove(String),
    /// Hold a package's updates back (`true`) or release it (`false`).
    Pin(String, bool),
    /// Hide a package from the list (`true`) or show it again (`false`).
    Ignore(String, bool),
    /// Write the addon list to a file.
    Export(String),
    /// Install the packages of an addon list file.
    Import(String),
    /// Store the Wago key (an empty one clears it).
    WagoKey(String),
    /// The last lines of the log.
    Log(u64),
    /// README summary and preview of a GitHub repository (`owner/repo`).
    Details(String),
    /// The popularity figures.
    Stats,
    /// An icon: a texture path of the install, or a repository's avatar.
    Icon(String),
    /// Dependencies that are required and not installed.
    Missing,
    /// Check for a newer build and install it.
    SelfUpdate,
}

pub enum ExtraSpec {
    Remove(Seq<char>),
    Pin(Seq<char>, bool),
    Ignore(Seq<char>, bool),
    Export(Seq<char>),
    Import(Seq<char>),
    WagoKey(Seq<char>),
    Log(u64),
    Details(Seq<char>),
    Stats,
    Icon(Seq<char>),
    Missing,
    SelfUpdate,
}

impl View for ExtraCommand {
    type V = ExtraSpec;

    open spec fn view(&self) -> ExtraSpec {
        match self {
            ExtraCommand::Remove(k) => ExtraSpec::Remove(k@),
            ExtraCommand::Pin(k, b) => ExtraSpec::Pin(k@, *b),
            ExtraCommand::Ignore(k, b) => ExtraSpec::Ignore(k@, *b),
            ExtraCommand::Export(f) => ExtraSpec::Export(f@),
            ExtraCommand::Import(f) => ExtraSpec::Import(f@),
            ExtraCommand::WagoKey(k) => ExtraSpec::WagoKey(k@),
            ExtraCommand::Log(n) => ExtraSpec::Log(*n),
            ExtraCommand::Details(r) => ExtraSpec::Details(r@),
            ExtraCommand::Stats => ExtraSpec::Stats,
            ExtraCommand::Icon(w) => ExtraSpec::Icon(w@),
            ExtraCommand::Missing => ExtraSpec::Missing,
            ExtraCommand::SelfUpdate => ExtraSpec::SelfUpdate,
        }
    }
}

/// The argument after the command word, or the usage error.
pub open spec fn arg_or(args: Seq<Seq<char>>, usage: Seq<char>) -> Result<Seq<char>, Seq<char>> {
    if args.len() > 1 { Ok(args[1]) } else { Err(usage) }
}

pub open spec fn with_arg(args: Seq<Seq<char>>, usage: Seq<char>, f: spec_fn(Seq<char>) -> ExtraSpec) -> Result<ExtraSpec, Seq<char>> {
    match arg_or(args, usage) {
        Ok(a) => Ok(f(a)),
        Err(e) => Err(e),
    }
}

/// `None` when the command word is not one of these (see [`spec_parse_cli`]).
pub open spec fn spec_parse_extra(args: Seq<Seq<char>>) -> Option<Result<ExtraSpec, Seq<char>>> {
    if args.len() == 0 {
        None
    } else {
        let w = args[0];
        if w == "remove"@ {
            Some(with_arg(args, "usage: remove <package key>"@, |a: Seq<char>| ExtraSpec::Remove(a)))
        } else if w == "pin"@ || w == "unpin"@ {
            Some(with_arg(args, "usage: "@ + w + " <package key>"@, |a: Seq<char>| ExtraSpec::Pin(a, w == "pin"@)))
        } else if w == "ignore"@ || w == "unignore"@ {
            Some(with_arg(args, "usage: "@ + w + " <package key>"@, |a: Seq<char>| ExtraSpec::Ignore(a, w == "ignore"@)))
        } else if w == "export"@ {
            Some(with_arg(args, "usage: export <file>"@, |a: Seq<char>| ExtraSpec::Export(a)))
        } else if w == "import"@ {
            Some(with_arg(args, "usage: import <file>"@, |a: Seq<char>| ExtraSpec::Import(a)))
        } else if w == "wago-key"@ {
            Some(Ok(ExtraSpec::WagoKey(if args.len() > 1 { args[1] } else { seq![] })))
        } else if w == "log"@ {
            Some(Ok(ExtraSpec::Log(
                if args.len() > 1 {
                    match parse_u64(args[1]) { Some(n) => n, None => 50 }
                } else {
                    50
                },
            )))
        } else if w == "details"@ {
            Some(
                if args.len() > 1 {
                    match spec_parse_github_repo(args[1]) {
                        Some(r) => Ok(ExtraSpec::Details(r)),
                        None => Err("usage: details <owner/repo>"@),
                    }
                } else {
                    Err("usage: details <owner/repo>"@)
                },
            )
        } else if w == "stats"@ {
            Some(Ok(ExtraSpec::Stats))
        } else if w == "icon"@ {
            Some(with_arg(args, "usage: icon <texture path | owner/repo>"@, |a: Seq<char>| ExtraSpec::Icon(a)))
        } else if w == "missing"@ {
            Some(Ok(ExtraSpec::Missing))
        } else if w == "self-update"@ {
            Some(Ok(ExtraSpec::SelfUpdate))
        } else {
            None
        }
    }
}

pub open spec fn extra_result(r: Option<Result<ExtraCommand, String>>) -> Option<Result<ExtraSpec, Seq<char>>> {
    match r {
        Some(Ok(c)) => Some(Ok(c@)),
        Some(Err(e)) => Some(Err(e@)),
        None => None,
    }
}

fn usage_for(word: &String) -> (r: String)
    ensures
        r@ == "usage: "@ + word@ + " <package key>"@,
{
    let mut v = chars_of("usage: ");
    let w = chars_of(word.as_str());
    crate::text::push_all(&mut v, &w);
    let t = chars_of(" <package key>");
    crate::text::push_all(&mut v, &t);
    crate::text::string_of(&v)
}

pub fn parse_extra(args: &Vec<String>) -> (r: Option<Result<ExtraCommand, String>>)
    ensures
        extra_result(r) == spec_parse_extra(strs(args@)),
{
    let ghost a = strs(args@);
    if args.len() == 0 {
        return None;
    }
    let w = &args[0];
    assert(a[0] == w@);
    let arg: Option<String> = if args.len() > 1 { Some(copy_string(&args[1])) } else { None };
    proof {
        if args.len() > 1 {
            assert(a[1] == args@[1]@);
        }
    }
    if is_word(w, "remove") {
        Some(match arg {
            Some(k) => Ok(ExtraCommand::Remove(k)),
            None => Err(String::from_str("usage: remove <package key>")),
        })
    } else if is_word(w, "pin") || is_word(w, "unpin") {
        let on = is_word(w, "pin");
        Some(match arg {
            Some(k) => Ok(ExtraCommand::Pin(k, on)),
            None => Err(usage_for(w)),
        })
    } else if is_word(w, "ignore") || is_word(w, "unignore") {
        let on = is_word(w, "ignore");
        Some(match arg {
            Some(k) => Ok(ExtraCommand::Ignore(k, on)),
            None => Err(usage_for(w)),
        })
    } else if is_word(w, "export") {
        Some(match arg {
            Some(f) => Ok(ExtraCommand::Export(f)),
            None => Err(String::from_str("usage: export <file>")),
        })
    } else if is_word(w, "import") {
        Some(match arg {
            Some(f) => Ok(ExtraCommand::Import(f)),
            None => Err(String::from_str("usage: import <file>")),
        })
    } else if is_word(w, "wago-key") {
        Some(Ok(ExtraCommand::WagoKey(match arg {
            Some(k) => k,
            None => String::new(),
        })))
    } else if is_word(w, "log") {
        let n: u64 = match arg {
            Some(s) => {
                let c = chars_of(s.as_str());
                match parse_unsigned(&c, u64::MAX) {
                    Some(n) => n,
                    None => 50,
                }
            },
            None => 50,
        };
        Some(Ok(ExtraCommand::Log(n)))
    } else if is_word(w, "details") {
        Some(match arg {
            Some(s) => match parse_github_repo(s.as_str()) {
                Some(r) => Ok(ExtraCommand::Details(r)),
                None => Err(String::from_str("usage: details <owner/repo>")),
            },
            None => Err(String::from_str("usage: details <owner/repo>")),
        })
    } else if is_word(w, "stats") {
        Some(Ok(ExtraCommand::Stats))
    } else if is_word(w, "icon") {
        Some(match arg {
            Some(x) => Ok(ExtraCommand::Icon(x)),
            None => Err(String::from_str("usage: icon <texture path | owner/repo>")),
        })
    } else if is_word(w, "missing") {
        Some(Ok(ExtraCommand::Missing))
    } else if is_word(w, "self-update") {
        Some(Ok(ExtraCommand::SelfUpdate))
    } else {
        None
    }
}

} // verus!
