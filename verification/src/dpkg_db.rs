//! The dpkg status database (`/var/lib/dpkg/status`): one deb822 stanza per
//! package describing its installation state, typed access to it, the text
//! written back, and in-place changes.

use vstd::prelude::*;
use crate::text::{chars_of, str_eq, push_str, own, words, words_exec, string_of, views};
use crate::control_file::{ControlError, ControlParagraph, parse_control, pget, first_line,
    first_line_of, lenient_fields};
use crate::stanza::stanzas;
use crate::fields::Pairs;

verus! {

// ── Errors ────────────────────────────────────────────────────────────────────

/// Errors produced by the dpkg database layer.
#[derive(Debug)]
pub enum DbError {
    /// A control-file parse error.
    Control(ControlError),
    /// A `Status:` field did not hold exactly three words.
    BadStatus(String),
    /// A required field was absent from a stanza.
    MissingField(String),
    /// Writing the temporary file failed.
    Persist(String),
    /// The status file was not valid UTF-8.
    Utf8(String),
}

// ── The three words of `Status:` ──────────────────────────────────────────────

/// What the administrator wants done with the package (first word).
#[derive(Debug, Clone, PartialEq, Eq)]
pub enum PackageWant {
    Install,
    Hold,
    Deinstall,
    Purge,
    /// An unrecognised want value.
    Unknown(String),
}

/// What dpkg did last to the package (second word).
#[derive(Debug, Clone, PartialEq, Eq)]
pub enum PackageAction {
    Okay,
    ReinstatationRequired,
    TriggerAwaited,
    TriggersPending,
    HalfInstalled,
    UnpackFailed,
    HalfConfigured,
    PostInstFailed,
    RemovalFailed,
    /// An unrecognised action value.
    Unknown(String),
}

/// The package's installation state (third word).
#[derive(Debug, Clone, PartialEq, Eq)]
pub enum InstallStatus {
    Installed,
    HalfInstalled,
    ConfigFiles,
    Unpacked,
    HalfConfigured,
    TriggersAwaited,
    TriggersPending,
    NotInstalled,
    /// An unrecognised status value.
    Unknown(String),
}

pub enum WantView {
    Install,
    Hold,
    Deinstall,
    Purge,
    Unknown(Seq<char>),
}

pub enum ActionView {
    Okay,
    ReinstatationRequired,
    TriggerAwaited,
    TriggersPending,
    HalfInstalled,
    UnpackFailed,
    HalfConfigured,
    PostInstFailed,
    RemovalFailed,
    Unknown(Seq<char>),
}

pub enum InstallView {
    Installed,
    HalfInstalled,
    ConfigFiles,
    Unpacked,
    HalfConfigured,
    TriggersAwaited,
    TriggersPending,
    NotInstalled,
    Unknown(Seq<char>),
}

impl View for PackageWant {
    type V = WantView;

    open spec fn view(&self) -> WantView {
        match self {
            PackageWant::Install => WantView::Install,
            PackageWant::Hold => WantView::Hold,
            PackageWant::Deinstall => WantView::Deinstall,
            PackageWant::Purge => WantView::Purge,
            PackageWant::Unknown(s) => WantView::Unknown(s@),
        }
    }
}

impl View for PackageAction {
    type V = ActionView;

    open spec fn view(&self) -> ActionView {
        match self {
            PackageAction::Okay => ActionView::Okay,
            PackageAction::ReinstatationRequired => ActionView::ReinstatationRequired,
            PackageAction::TriggerAwaited => ActionView::TriggerAwaited,
            PackageAction::TriggersPending => ActionView::TriggersPending,
            PackageAction::HalfInstalled => ActionView::HalfInstalled,
            PackageAction::UnpackFailed => ActionView::UnpackFailed,
            PackageAction::HalfConfigured => ActionView::HalfConfigured,
            PackageAction::PostInstFailed => ActionView::PostInstFailed,
            PackageAction::RemovalFailed => ActionView::RemovalFailed,
            PackageAction::Unknown(s) => ActionView::Unknown(s@),
        }
    }
}

impl View for InstallStatus {
    type V = InstallView;

    open spec fn view(&self) -> InstallView {
        match self {
            InstallStatus::Installed => InstallView::Installed,
            InstallStatus::HalfInstalled => InstallView::HalfInstalled,
            InstallStatus::ConfigFiles => InstallView::ConfigFiles,
            InstallStatus::Unpacked => InstallView::Unpacked,
            InstallStatus::HalfConfigured => InstallView::HalfConfigured,
            InstallStatus::TriggersAwaited => InstallView::TriggersAwaited,
            InstallStatus::TriggersPending => InstallView::TriggersPending,
            InstallStatus::NotInstalled => InstallView::NotInstalled,
            InstallStatus::Unknown(s) => InstallView::Unknown(s@),
        }
    }
}

pub open spec fn want_of(w: Seq<char>) -> WantView {
    if w == "install"@ {
        WantView::Install
    } else if w == "hold"@ {
        WantView::Hold
    } else if w == "deinstall"@ {
        WantView::Deinstall
    } else if w == "purge"@ {
        WantView::Purge
    } else {
        WantView::Unknown(w)
    }
}

pub open spec fn want_text(v: WantView) -> Seq<char> {
    match v {
        WantView::Install => "install"@,
        WantView::Hold => "hold"@,
        WantView::Deinstall => "deinstall"@,
        WantView::Purge => "purge"@,
        WantView::Unknown(s) => s,
    }
}

/// `triggersawaited` and its older name `trigproc` both mean that triggers
/// are awaited.
pub open spec fn action_of(w: Seq<char>) -> ActionView {
    if w == "ok"@ {
        ActionView::Okay
    } else if w == "reinstreq"@ {
        ActionView::ReinstatationRequired
    } else if w == "triggersawaited"@ || w == "trigproc"@ {
        ActionView::TriggerAwaited
    } else if w == "trigpend"@ {
        ActionView::TriggersPending
    } else if w == "half-installed"@ {
        ActionView::HalfInstalled
    } else if w == "unpack-failed"@ {
        ActionView::UnpackFailed
    } else if w == "half-configured"@ {
        ActionView::HalfConfigured
    } else if w == "postinst-failed"@ {
        ActionView::PostInstFailed
    } else if w == "removal-failed"@ {
        ActionView::RemovalFailed
    } else {
        ActionView::Unknown(w)
    }
}

pub open spec fn action_text(v: ActionView) -> Seq<char> {
    match v {
        ActionView::Okay => "ok"@,
        ActionView::ReinstatationRequired => "reinstreq"@,
        ActionView::TriggerAwaited => "triggersawaited"@,
        ActionView::TriggersPending => "trigpend"@,
        ActionView::HalfInstalled => "half-installed"@,
        ActionView::UnpackFailed => "unpack-failed"@,
        ActionView::HalfConfigured => "half-configured"@,
        ActionView::PostInstFailed => "postinst-failed"@,
        ActionView::RemovalFailed => "removal-failed"@,
        ActionView::Unknown(s) => s,
    }
}

pub open spec fn install_of(w: Seq<char>) -> InstallView {
    if w == "installed"@ {
        InstallView::Installed
    } else if w == "half-installed"@ {
        InstallView::HalfInstalled
    } else if w == "config-files"@ {
        InstallView::ConfigFiles
    } else if w == "unpacked"@ {
        InstallView::Unpacked
    } else if w == "half-configured"@ {
        InstallView::HalfConfigured
    } else if w == "triggers-awaited"@ {
        InstallView::TriggersAwaited
    } else if w == "triggers-pending"@ {
        InstallView::TriggersPending
    } else if w == "not-installed"@ {
        InstallView::NotInstalled
    } else {
        InstallView::Unknown(w)
    }
}

pub open spec fn install_text(v: InstallView) -> Seq<char> {
    match v {
        InstallView::Installed => "installed"@,
        InstallView::HalfInstalled => "half-installed"@,
        InstallView::ConfigFiles => "config-files"@,
        InstallView::Unpacked => "unpacked"@,
        InstallView::HalfConfigured => "half-configured"@,
        InstallView::TriggersAwaited => "triggers-awaited"@,
        InstallView::TriggersPending => "triggers-pending"@,
        InstallView::NotInstalled => "not-installed"@,
        InstallView::Unknown(s) => s,
    }
}

impl PackageWant {
    fn parse(s: &str) -> (r: PackageWant)
        ensures
            r@ == want_of(s@),
    {
        if str_eq(s, "install") {
            PackageWant::Install
        } else if str_eq(s, "hold") {
            PackageWant::Hold
        } else if str_eq(s, "deinstall") {
            PackageWant::Deinstall
        } else if str_eq(s, "purge") {
            PackageWant::Purge
        } else {
            PackageWant::Unknown(own(s))
        }
    }

    /// The word as written in a `Status:` field.
    pub fn to_string(&self) -> (r: String)
        ensures
            r@ == want_text(self@),
    {
        match self {
            PackageWant::Install => own("install"),
            PackageWant::Hold => own("hold"),
            PackageWant::Deinstall => own("deinstall"),
            PackageWant::Purge => own("purge"),
            PackageWant::Unknown(s) => s.clone(),
        }
    }

    /// A copy of this value.
    pub fn copy(&self) -> (r: PackageWant)
        ensures
            r@ == self@,
    {
        match self {
            PackageWant::Install => PackageWant::Install,
            PackageWant::Hold => PackageWant::Hold,
            PackageWant::Deinstall => PackageWant::Deinstall,
            PackageWant::Purge => PackageWant::Purge,
            PackageWant::Unknown(s) => PackageWant::Unknown(s.clone()),
        }
    }
}

impl PackageAction {
    fn parse(s: &str) -> (r: PackageAction)
        ensures
            r@ == action_of(s@),
    {
        if str_eq(s, "ok") {
            PackageAction::Okay
        } else if str_eq(s, "reinstreq") {
            PackageAction::ReinstatationRequired
        } else if str_eq(s, "triggersawaited") || str_eq(s, "trigproc") {
            PackageAction::TriggerAwaited
        } else if str_eq(s, "trigpend") {
            PackageAction::TriggersPending
        } else if str_eq(s, "half-installed") {
            PackageAction::HalfInstalled
        } else if str_eq(s, "unpack-failed") {
            PackageAction::UnpackFailed
        } else if str_eq(s, "half-configured") {
            PackageAction::HalfConfigured
        } else if str_eq(s, "postinst-failed") {
            PackageAction::PostInstFailed
        } else if str_eq(s, "removal-failed") {
            PackageAction::RemovalFailed
        } else {
            PackageAction::Unknown(own(s))
        }
    }

    /// The word as written in a `Status:` field.
    pub fn to_string(&self) -> (r: String)
        ensures
            r@ == action_text(self@),
    {
        match self {
            PackageAction::Okay => own("ok"),
            PackageAction::ReinstatationRequired => own("reinstreq"),
            PackageAction::TriggerAwaited => own("triggersawaited"),
            PackageAction::TriggersPending => own("trigpend"),
            PackageAction::HalfInstalled => own("half-installed"),
            PackageAction::UnpackFailed => own("unpack-failed"),
            PackageAction::HalfConfigured => own("half-configured"),
            PackageAction::PostInstFailed => own("postinst-failed"),
            PackageAction::RemovalFailed => own("removal-failed"),
            PackageAction::Unknown(s) => s.clone(),
        }
    }

    /// A copy of this value.
    pub fn copy(&self) -> (r: PackageAction)
        ensures
            r@ == self@,
    {
        match self {
            PackageAction::Okay => PackageAction::Okay,
            PackageAction::ReinstatationRequired => PackageAction::ReinstatationRequired,
            PackageAction::TriggerAwaited => PackageAction::TriggerAwaited,
            PackageAction::TriggersPending => PackageAction::TriggersPending,
            PackageAction::HalfInstalled => PackageAction::HalfInstalled,
            PackageAction::UnpackFailed => PackageAction::UnpackFailed,
            PackageAction::HalfConfigured => PackageAction::HalfConfigured,
            PackageAction::PostInstFailed => PackageAction::PostInstFailed,
            PackageAction::RemovalFailed => PackageAction::RemovalFailed,
            PackageAction::Unknown(s) => PackageAction::Unknown(s.clone()),
        }
    }
}

impl InstallStatus {
    fn parse(s: &str) -> (r: InstallStatus)
        ensures
            r@ == install_of(s@),
    {
        if str_eq(s, "installed") {
            InstallStatus::Installed
        } else if str_eq(s, "half-installed") {
            InstallStatus::HalfInstalled
        } else if str_eq(s, "config-files") {
            InstallStatus::ConfigFiles
        } else if str_eq(s, "unpacked") {
            InstallStatus::Unpacked
        } else if str_eq(s, "half-configured") {
            InstallStatus::HalfConfigured
        } else if str_eq(s, "triggers-awaited") {
            InstallStatus::TriggersAwaited
        } else if str_eq(s, "triggers-pending") {
            InstallStatus::TriggersPending
        } else if str_eq(s, "not-installed") {
            InstallStatus::NotInstalled
        } else {
            InstallStatus::Unknown(own(s))
        }
    }

    /// The word as written in a `Status:` field.
    pub fn to_string(&self) -> (r: String)
        ensures
            r@ == install_text(self@),
    {
        match self {
            InstallStatus::Installed => own("installed"),
            InstallStatus::HalfInstalled => own("half-installed"),
            InstallStatus::ConfigFiles => own("config-files"),
            InstallStatus::Unpacked => own("unpacked"),
            InstallStatus::HalfConfigured => own("half-configured"),
            InstallStatus::TriggersAwaited => own("triggers-awaited"),
            InstallStatus::TriggersPending => own("triggers-pending"),
            InstallStatus::NotInstalled => own("not-installed"),
            InstallStatus::Unknown(s) => s.clone(),
        }
    }

    /// A copy of this value.
    pub fn copy(&self) -> (r: InstallStatus)
        ensures
            r@ == self@,
    {
        match self {
            InstallStatus::Installed => InstallStatus::Installed,
            InstallStatus::HalfInstalled => InstallStatus::HalfInstalled,
            InstallStatus::ConfigFiles => InstallStatus::ConfigFiles,
            InstallStatus::Unpacked => InstallStatus::Unpacked,
            InstallStatus::HalfConfigured => InstallStatus::HalfConfigured,
            InstallStatus::TriggersAwaited => InstallStatus::TriggersAwaited,
            InstallStatus::TriggersPending => InstallStatus::TriggersPending,
            InstallStatus::NotInstalled => InstallStatus::NotInstalled,
            InstallStatus::Unknown(s) => InstallStatus::Unknown(s.clone()),
        }
    }
}

// ── PackageStatus ─────────────────────────────────────────────────────────────

/// A parsed `Status:` field: `<want> <action> <status>`.
#[derive(Debug)]
pub struct PackageStatus {
    pub want: PackageWant,
    pub action: PackageAction,
    pub status: InstallStatus,
}

pub struct StatusView {
    pub want: WantView,
    pub action: ActionView,
    pub status: InstallView,
}

impl View for PackageStatus {
    type V = StatusView;

    open spec fn view(&self) -> StatusView {
        StatusView { want: self.want@, action: self.action@, status: self.status@ }
    }
}

/// A `Status:` value: exactly three whitespace-separated words.
pub open spec fn status_of(s: Seq<char>) -> Option<StatusView> {
    let ws = words(s, false);
    if ws.len() != 3 {
        None
    } else {
        Some(StatusView { want: want_of(ws[0]), action: action_of(ws[1]), status: install_of(ws[2]) })
    }
}

pub open spec fn status_text(v: StatusView) -> Seq<char> {
    want_text(v.want) + " "@ + action_text(v.action) + " "@ + install_text(v.status)
}

impl PackageStatus {
    /// Parses a `Status:` value such as `"install ok installed"`; anything
    /// but three words is `BadStatus`.
    pub fn parse(s: &str) -> (r: Result<PackageStatus, DbError>)
        ensures
            match status_of(s@) {
                Some(v) => r matches Ok(p) && p@ == v,
                None => r matches Err(DbError::BadStatus(x)) && x@ == s@,
            },
    {
        let v = chars_of(s);
        let ws = words_exec(&v, 0, v.len(), false);
        proof {
            assert(v@.subrange(0, v@.len() as int) =~= v@);
        }
        if ws.len() != 3 {
            return Err(DbError::BadStatus(own(s)));
        }
        let a = string_of(&ws[0]);
        let b = string_of(&ws[1]);
        let c = string_of(&ws[2]);
        Ok(
            PackageStatus {
                want: PackageWant::parse(a.as_str()),
                action: PackageAction::parse(b.as_str()),
                status: InstallStatus::parse(c.as_str()),
            },
        )
    }

    /// Whether the package is in the `installed` state.
    pub fn is_installed(&self) -> (r: bool)
        ensures
            r == (self@.status is Installed),
    {
        match self.status {
            InstallStatus::Installed => true,
            _ => false,
        }
    }

    /// The three words separated by single spaces.
    pub fn to_string(&self) -> (r: String)
        ensures
            r@ == status_text(self@),
    {
        let mut out = self.want.to_string();
        push_str(&mut out, " ");
        let a = self.action.to_string();
        push_str(&mut out, a.as_str());
        push_str(&mut out, " ");
        let s = self.status.to_string();
        push_str(&mut out, s.as_str());
        out
    }

    /// A copy of this value.
    pub fn copy(&self) -> (r: PackageStatus)
        ensures
            r@ == self@,
    {
        PackageStatus { want: self.want.copy(), action: self.action.copy(), status: self.status.copy() }
    }
}

// ── Packages and the database ─────────────────────────────────────────────────

/// One entry of the status database.
#[derive(Debug)]
pub struct InstalledPackage {
    /// `Package:`.
    pub name: String,
    /// `Version:`.
    pub version: String,
    /// `Architecture:`.
    pub architecture: String,
    /// `Status:`, parsed.
    pub status: PackageStatus,
    /// `Depends:`, raw.
    pub depends: Option<String>,
    /// `Pre-Depends:`, raw.
    pub pre_depends: Option<String>,
    /// The first line of `Description:`.
    pub description: Option<String>,
}

pub struct PkgView {
    pub name: Seq<char>,
    pub version: Seq<char>,
    pub architecture: Seq<char>,
    pub status: StatusView,
    pub depends: Option<Seq<char>>,
    pub pre_depends: Option<Seq<char>>,
    pub description: Option<Seq<char>>,
}

pub open spec fn sopt(o: Option<String>) -> Option<Seq<char>> {
    match o {
        Some(s) => Some(s@),
        None => None,
    }
}

impl View for InstalledPackage {
    type V = PkgView;

    open spec fn view(&self) -> PkgView {
        PkgView {
            name: self.name@,
            version: self.version@,
            architecture: self.architecture@,
            status: self.status@,
            depends: sopt(self.depends),
            pre_depends: sopt(self.pre_depends),
            description: sopt(self.description),
        }
    }
}

pub open spec fn pkg_views(v: Seq<InstalledPackage>) -> Seq<PkgView> {
    Seq::new(v.len(), |i: int| v[i]@)
}

/// The record of one stanza's fields: `None` (skipped) without `Package:`
/// or without a valid `Status:`.
pub open spec fn pkg_of(f: Pairs) -> Option<PkgView> {
    match pget(f, "Package"@) {
        None => None,
        Some(name) => match pget(f, "Status"@) {
            None => None,
            Some(s) => match status_of(s) {
                None => None,
                Some(st) => Some(
                    PkgView {
                        name,
                        version: match pget(f, "Version"@) {
                            Some(v) => v,
                            None => Seq::empty(),
                        },
                        architecture: match pget(f, "Architecture"@) {
                            Some(v) => v,
                            None => Seq::empty(),
                        },
                        status: st,
                        depends: pget(f, "Depends"@),
                        pre_depends: pget(f, "Pre-Depends"@),
                        description: match pget(f, "Description"@) {
                            Some(d) => Some(first_line(d)),
                            None => None,
                        },
                    },
                ),
            },
        },
    }
}

/// The records of the stanzas `ss`, skipped ones left out.
pub open spec fn db_of(ss: Seq<Seq<char>>) -> Seq<PkgView>
    decreases ss.len(),
{
    if ss.len() == 0 {
        Seq::empty()
    } else {
        let r = db_of(ss.drop_last());
        match pkg_of(lenient_fields(ss.last(), true)) {
            Some(p) => r.push(p),
            None => r,
        }
    }
}

/// Index of the first record named `name`, or the number of records.
pub open spec fn pkg_index(ps: Seq<PkgView>, name: Seq<char>) -> nat
    decreases ps.len(),
{
    if ps.len() == 0 {
        0
    } else if ps[0].name == name {
        0
    } else {
        1 + pkg_index(ps.drop_first(), name)
    }
}

/// The first record named `name`.
pub open spec fn find_spec(ps: Seq<PkgView>, name: Seq<char>) -> Option<PkgView> {
    let i = pkg_index(ps, name) as int;
    if i < ps.len() {
        Some(ps[i])
    } else {
        None
    }
}

pub proof fn lemma_pkg_index(ps: Seq<PkgView>, name: Seq<char>)
    ensures
        pkg_index(ps, name) <= ps.len(),
        pkg_index(ps, name) < ps.len() ==> ps[pkg_index(ps, name) as int].name == name,
        forall|m: int| 0 <= m < pkg_index(ps, name) ==> ps[m].name != name,
    decreases ps.len(),
{
    if ps.len() > 0 && ps[0].name != name {
        lemma_pkg_index(ps.drop_first(), name);
        assert forall|m: int| 0 <= m < pkg_index(ps, name) implies ps[m].name != name by {
            if m > 0 {
                assert(ps[m] == ps.drop_first()[m - 1]);
            }
        }
    }
}

pub proof fn lemma_pkg_index_at(ps: Seq<PkgView>, name: Seq<char>, i: int)
    requires
        0 <= i <= ps.len(),
        i < ps.len() ==> ps[i].name == name,
        forall|m: int| 0 <= m < i ==> ps[m].name != name,
    ensures
        pkg_index(ps, name) == i,
    decreases ps.len(),
{
    if ps.len() > 0 && i > 0 {
        assert forall|m: int| 0 <= m < i - 1 implies ps.drop_first()[m].name != name by {
            assert(ps.drop_first()[m] == ps[m + 1]);
        }
        lemma_pkg_index_at(ps.drop_first(), name, i - 1);
    }
}

/// `Key: value` and a newline when there is a value.
pub open spec fn opt_line(key: Seq<char>, v: Option<Seq<char>>) -> Seq<char> {
    match v {
        Some(x) => key + x + "\n"@,
        None => Seq::empty(),
    }
}

/// One record as a status stanza.
pub open spec fn pkg_text(p: PkgView) -> Seq<char> {
    "Package: "@ + p.name + "\n"@ + "Status: "@ + status_text(p.status) + "\n"@ + "Architecture: "@
        + p.architecture + "\n"@ + "Version: "@ + p.version + "\n"@ + opt_line(
        "Pre-Depends: "@,
        p.pre_depends,
    ) + opt_line("Depends: "@, p.depends) + opt_line("Description: "@, p.description)
}

/// The whole database as text: stanzas separated by blank lines.
pub open spec fn db_text(ps: Seq<PkgView>) -> Seq<char>
    decreases ps.len(),
{
    if ps.len() == 0 {
        Seq::empty()
    } else if ps.len() == 1 {
        pkg_text(ps[0])
    } else {
        db_text(ps.drop_last()) + "\n"@ + pkg_text(ps.last())
    }
}

/// A change to the database.
#[derive(Debug)]
pub enum StatusChange {
    /// Set the version, architecture and status of the named package,
    /// creating its record if there is none.
    SetStatus { name: String, version: String, architecture: String, status: PackageStatus },
    /// Remove every record of the named package.
    Remove { name: String },
}

pub enum ChangeView {
    SetStatus { name: Seq<char>, version: Seq<char>, architecture: Seq<char>, status: StatusView },
    Remove { name: Seq<char> },
}

impl View for StatusChange {
    type V = ChangeView;

    open spec fn view(&self) -> ChangeView {
        match self {
            StatusChange::SetStatus { name, version, architecture, status } => ChangeView::SetStatus {
                name: name@,
                version: version@,
                architecture: architecture@,
                status: status@,
            },
            StatusChange::Remove { name } => ChangeView::Remove { name: name@ },
        }
    }
}

/// The records without those named `name`.
pub open spec fn without(ps: Seq<PkgView>, name: Seq<char>) -> Seq<PkgView>
    decreases ps.len(),
{
    if ps.len() == 0 {
        Seq::empty()
    } else {
        let r = without(ps.drop_last(), name);
        if ps.last().name != name {
            r.push(ps.last())
        } else {
            r
        }
    }
}

/// One change applied: an existing first record keeps its place and its
/// other fields; a new one goes last with no dependencies or description.
pub open spec fn apply_change(ps: Seq<PkgView>, c: ChangeView) -> Seq<PkgView> {
    match c {
        ChangeView::SetStatus { name, version, architecture, status } => {
            let i = pkg_index(ps, name) as int;
            if i < ps.len() {
                ps.update(
                    i,
                    PkgView {
                        name: ps[i].name,
                        version,
                        architecture,
                        status,
                        depends: ps[i].depends,
                        pre_depends: ps[i].pre_depends,
                        description: ps[i].description,
                    },
                )
            } else {
                ps.push(
                    PkgView {
                        name,
                        version,
                        architecture,
                        status,
                        depends: None,
                        pre_depends: None,
                        description: None,
                    },
                )
            }
        },
        ChangeView::Remove { name } => without(ps, name),
    }
}

/// Setting the status of a package: afterwards the record found by its name
/// has the new version, architecture and status; when a record of that name
/// was there, it keeps that record's `Depends`, `Pre-Depends` and
/// description, else it has none of them; the records found by every other
/// name are unchanged.
pub proof fn lemma_set_status_keeps_fields(
    ps: Seq<PkgView>,
    name: Seq<char>,
    version: Seq<char>,
    architecture: Seq<char>,
    status: StatusView,
)
    ensures
        ({
            let after = apply_change(ps, ChangeView::SetStatus { name, version, architecture, status });
            &&& find_spec(after, name) matches Some(q) && q.name == name && q.version == version
                && q.architecture == architecture && q.status == status && match find_spec(ps, name) {
                Some(p) => q.depends == p.depends && q.pre_depends == p.pre_depends && q.description
                    == p.description,
                None => q.depends is None && q.pre_depends is None && q.description is None,
            }
            &&& forall|other: Seq<char>| other != name ==> #[trigger] find_spec(after, other) == find_spec(ps, other)
        }),
{
    let c = ChangeView::SetStatus { name, version, architecture, status };
    let after = apply_change(ps, c);
    lemma_pkg_index(ps, name);
    let i = pkg_index(ps, name) as int;
    if i < ps.len() {
        assert forall|m: int| 0 <= m < after.len() implies #[trigger] after[m].name == ps[m].name by {}
        lemma_pkg_index_at(after, name, i);
        assert forall|other: Seq<char>| other != name implies #[trigger] find_spec(after, other) == find_spec(ps, other) by {
            lemma_pkg_index(ps, other);
            let j = pkg_index(ps, other) as int;
            lemma_pkg_index_at(after, other, j);
            if j < ps.len() {
                assert(j != i);
            }
        }
    } else {
        lemma_pkg_index_at(after, name, ps.len() as int);
        assert forall|other: Seq<char>| other != name implies #[trigger] find_spec(after, other) == find_spec(ps, other) by {
            lemma_pkg_index(ps, other);
            let j = pkg_index(ps, other) as int;
            if j < ps.len() {
                lemma_pkg_index_at(after, other, j);
            } else {
                lemma_pkg_index_at(after, other, after.len() as int);
            }
        }
    }
}

/// Applying changes one call at a time is applying them all at once.
pub proof fn lemma_apply_changes_step(ps: Seq<PkgView>, cs: Seq<ChangeView>, c: ChangeView)
    ensures
        apply_changes_spec(ps, cs.push(c)) == apply_change(apply_changes_spec(ps, cs), c),
{
    assert(cs.push(c).drop_last() =~= cs);
}

/// The changes `cs` applied in order.
pub open spec fn apply_changes_spec(ps: Seq<PkgView>, cs: Seq<ChangeView>) -> Seq<PkgView>
    decreases cs.len(),
{
    if cs.len() == 0 {
        ps
    } else {
        apply_change(apply_changes_spec(ps, cs.drop_last()), cs.last())
    }
}

pub open spec fn change_views(cs: Seq<StatusChange>) -> Seq<ChangeView> {
    Seq::new(cs.len(), |i: int| cs[i]@)
}

/// In-memory dpkg status database.
#[derive(Debug)]
pub struct StatusDb {
    packages: Vec<InstalledPackage>,
}

impl View for StatusDb {
    type V = Seq<PkgView>;

    closed spec fn view(&self) -> Seq<PkgView> {
        pkg_views(self.packages@)
    }
}

fn opt_string(o: Option<&str>) -> (r: Option<String>)
    ensures
        sopt(r) == match o {
            Some(s) => Some(s@),
            None => None::<Seq<char>>,
        },
{
    match o {
        Some(s) => Some(own(s)),
        None => None,
    }
}

fn copy_opt(o: &Option<String>) -> (r: Option<String>)
    ensures
        sopt(r) == sopt(*o),
{
    match o {
        Some(s) => Some(s.clone()),
        None => None,
    }
}

fn package_of(para: &ControlParagraph) -> (r: Option<InstalledPackage>)
    ensures
        match pkg_of(para@) {
            Some(p) => r matches Some(x) && x@ == p,
            None => r is None,
        },
{
    let name = match para.get("Package") {
        Some(n) => own(n),
        None => {
            return None;
        },
    };
    let version = match para.get("Version") {
        Some(v) => own(v),
        None => String::new(),
    };
    let architecture = match para.get("Architecture") {
        Some(v) => own(v),
        None => String::new(),
    };
    let status = match para.get("Status") {
        Some(s) => match PackageStatus::parse(s) {
            Ok(ps) => ps,
            Err(_) => {
                return None;
            },
        },
        None => {
            return None;
        },
    };
    let description = match para.get("Description") {
        Some(d) => Some(first_line_of(d)),
        None => None,
    };
    Some(
        InstalledPackage {
            name,
            version,
            architecture,
            status,
            depends: opt_string(para.get("Depends")),
            pre_depends: opt_string(para.get("Pre-Depends")),
            description,
        },
    )
}

fn push_opt_line(out: &mut String, key: &str, v: &Option<String>)
    ensures
        final(out)@ == old(out)@ + opt_line(key@, sopt(*v)),
{
    match v {
        Some(x) => {
            let ghost start = out@;
            push_str(out, key);
            push_str(out, x.as_str());
            push_str(out, "\n");
            assert(out@ =~= start + opt_line(key@, sopt(*v)));
        },
        None => {
            assert(old(out)@ + opt_line(key@, sopt(*v)) =~= old(out)@);
        },
    }
}

#[verifier::spinoff_prover]
#[verifier::rlimit(40)]
fn push_pkg(out: &mut String, p: &InstalledPackage)
    ensures
        final(out)@ == old(out)@ + pkg_text(p@),
{
    let ghost start = out@;
    push_str(out, "Package: ");
    push_str(out, p.name.as_str());
    push_str(out, "\n");
    push_str(out, "Status: ");
    let st = p.status.to_string();
    push_str(out, st.as_str());
    push_str(out, "\n");
    push_str(out, "Architecture: ");
    push_str(out, p.architecture.as_str());
    push_str(out, "\n");
    push_str(out, "Version: ");
    push_str(out, p.version.as_str());
    push_str(out, "\n");
    let ghost mid = out@;
    push_opt_line(out, "Pre-Depends: ", &p.pre_depends);
    push_opt_line(out, "Depends: ", &p.depends);
    push_opt_line(out, "Description: ", &p.description);
    proof {
        assert(out@ =~= start + pkg_text(p@));
    }
}

impl StatusDb {
    /// An empty database.
    pub fn new() -> (r: StatusDb)
        ensures
            r@ == Seq::<PkgView>::empty(),
    {
        let r = StatusDb { packages: Vec::new() };
        assert(r@ =~= Seq::<PkgView>::empty());
        r
    }

    /// Parses a status database: one record per stanza that has `Package:`
    /// and a valid `Status:`; other stanzas are skipped.
    pub fn parse_str(content: &str) -> (r: Result<StatusDb, DbError>)
        ensures
            r matches Ok(db) && db@ == db_of(stanzas(content@)),
    {
        let paragraphs = parse_control(content);
        let ghost ss = stanzas(content@);
        let mut packages: Vec<InstalledPackage> = Vec::new();
        let mut i: usize = 0;
        proof {
            assert(ss.take(0) =~= Seq::<Seq<char>>::empty());
            assert(pkg_views(packages@) =~= Seq::<PkgView>::empty());
        }
        while i < paragraphs.len()
            invariant
                i <= paragraphs@.len(),
                ss == stanzas(content@),
                paragraphs@.len() == ss.len(),
                forall|m: int| 0 <= m < paragraphs@.len() ==> #[trigger] paragraphs@[m]@ == lenient_fields(ss[m], true),
                pkg_views(packages@) == db_of(ss.take(i as int)),
            decreases paragraphs.len() - i,
        {
            proof {
                assert(ss.take(i + 1).drop_last() =~= ss.take(i as int));
                assert(paragraphs@[i as int]@ == lenient_fields(ss[i as int], true));
            }
            match package_of(&paragraphs[i]) {
                Some(p) => {
                    let ghost before = pkg_views(packages@);
                    packages.push(p);
                    assert(pkg_views(packages@) =~= before.push(packages@.last()@));
                },
                None => {},
            }
            i = i + 1;
        }
        proof {
            assert(ss.take(ss.len() as int) =~= ss);
        }
        Ok(StatusDb { packages })
    }

    /// Every record, installed or not.
    pub fn packages(&self) -> (r: &[InstalledPackage])
        ensures
            pkg_views(r@) == self@,
    {
        self.packages.as_slice()
    }

    /// The records in the `installed` state, in order.
    pub fn installed_packages(&self) -> (r: Vec<&InstalledPackage>)
        ensures
            r@.len() <= self@.len(),
            forall|i: int| 0 <= i < r@.len() ==> (#[trigger] r@[i])@.status.status is Installed,
            installed_views(r@) == installed_only(self@),
    {
        let ghost pv = self@;
        let mut out: Vec<&InstalledPackage> = Vec::new();
        let mut i: usize = 0;
        proof {
            assert(pv.take(0) =~= Seq::<PkgView>::empty());
            assert(installed_views(out@) =~= Seq::<PkgView>::empty());
        }
        while i < self.packages.len()
            invariant
                i <= self.packages@.len(),
                pv == self@,
                out@.len() <= i,
                forall|k: int| 0 <= k < out@.len() ==> (#[trigger] out@[k])@.status.status is Installed,
                installed_views(out@) == installed_only(pv.take(i as int)),
            decreases self.packages.len() - i,
        {
            let p = &self.packages[i];
            proof {
                assert(pv.take(i + 1).drop_last() =~= pv.take(i as int));
                assert(pv.take(i + 1).last() == p@);
            }
            if p.status.is_installed() {
                let ghost before = installed_views(out@);
                out.push(p);
                assert(installed_views(out@) =~= before.push(p@));
            }
            i = i + 1;
        }
        proof {
            assert(pv.take(pv.len() as int) =~= pv);
        }
        out
    }

    /// The first record named `name`.
    pub fn find(&self, name: &str) -> (r: Option<&InstalledPackage>)
        ensures
            match find_spec(self@, name@) {
                Some(p) => r matches Some(x) && x@ == p,
                None => r is None,
            },
    {
        let ghost pv = self@;
        let mut i: usize = 0;
        while i < self.packages.len()
            invariant
                i <= self.packages@.len(),
                pv == self@,
                forall|m: int| 0 <= m < i ==> pv[m].name != name@,
            decreases self.packages.len() - i,
        {
            if str_eq(self.packages[i].name.as_str(), name) {
                proof {
                    lemma_pkg_index_at(pv, name@, i as int);
                }
                return Some(&self.packages[i]);
            }
            i = i + 1;
        }
        proof {
            lemma_pkg_index_at(pv, name@, i as int);
        }
        None
    }

    /// The text of the status file: every record as a stanza, in order,
    /// separated by blank lines.
    pub fn render(&self) -> (r: String)
        ensures
            r@ == db_text(self@),
    {
        let ghost pv = self@;
        let mut out = String::new();
        let mut i: usize = 0;
        proof {
            assert(pv.take(0) =~= Seq::<PkgView>::empty());
        }
        while i < self.packages.len()
            invariant
                i <= self.packages@.len(),
                pv == self@,
                out@ == db_text(pv.take(i as int)),
            decreases self.packages.len() - i,
        {
            proof {
                assert(pv.take(i + 1).drop_last() =~= pv.take(i as int));
                assert(pv.take(i + 1).last() == self.packages@[i as int]@);
            }
            if i > 0 {
                push_str(&mut out, "\n");
            }
            push_pkg(&mut out, &self.packages[i]);
            proof {
                if i == 0 {
                    assert(pv.take(1)[0] == self.packages@[0]@);
                }
            }
            i = i + 1;
        }
        proof {
            assert(pv.take(pv.len() as int) =~= pv);
        }
        out
    }

    fn set_status(&mut self, name: &String, version: &String, architecture: &String, status: &PackageStatus)
        ensures
            final(self)@ == apply_change(
                old(self)@,
                ChangeView::SetStatus {
                    name: name@,
                    version: version@,
                    architecture: architecture@,
                    status: status@,
                },
            ),
    {
        let ghost pv = self@;
        let mut i: usize = 0;
        while i < self.packages.len()
            invariant
                i <= self.packages@.len(),
                pv == self@,
                pv == old(self)@,
                forall|m: int| 0 <= m < i ==> pv[m].name != name@,
            decreases self.packages.len() - i,
        {
            if str_eq(self.packages[i].name.as_str(), name.as_str()) {
                proof {
                    lemma_pkg_index_at(pv, name@, i as int);
                }
                let old_p = self.packages.remove(i);
                let p = InstalledPackage {
                    name: old_p.name,
                    version: version.clone(),
                    architecture: architecture.clone(),
                    status: status.copy(),
                    depends: old_p.depends,
                    pre_depends: old_p.pre_depends,
                    description: old_p.description,
                };
                self.packages.insert(i, p);
                proof {
                    assert(self@ =~= apply_change(
                        pv,
                        ChangeView::SetStatus {
                            name: name@,
                            version: version@,
                            architecture: architecture@,
                            status: status@,
                        },
                    ));
                }
                return;
            }
            i = i + 1;
        }
        proof {
            lemma_pkg_index_at(pv, name@, i as int);
        }
        let p = InstalledPackage {
            name: name.clone(),
            version: version.clone(),
            architecture: architecture.clone(),
            status: status.copy(),
            depends: None,
            pre_depends: None,
            description: None,
        };
        self.packages.push(p);
        proof {
            assert(self@ =~= pv.push(p@));
        }
    }

    fn remove_named(&mut self, name: &String)
        ensures
            final(self)@ == without(old(self)@, name@),
    {
        let ghost pv = self@;
        let mut kept: Vec<InstalledPackage> = Vec::new();
        let mut taken: Vec<InstalledPackage> = Vec::new();
        std::mem::swap(&mut taken, &mut self.packages);
        let ghost mut i: int = 0;
        proof {
            assert(pv.take(0) =~= Seq::<PkgView>::empty());
            assert(pkg_views(kept@) =~= Seq::<PkgView>::empty());
            assert(pv.skip(0) =~= pv);
        }
        while taken.len() > 0
            invariant
                pv == pkg_views(old(self).packages@),
                0 <= i,
                i + taken@.len() == pv.len(),
                pkg_views(taken@) == pv.skip(i),
                pkg_views(kept@) == without(pv.take(i), name@),
            decreases taken.len(),
        {
            let ghost old_t = taken@;
            let p = taken.remove(0);
            proof {
                assert(pv.take(i + 1).drop_last() =~= pv.take(i));
                assert(pkg_views(old_t)[0] == p@);
                assert(pv.take(i + 1).last() == pv[i]);
                assert(pkg_views(taken@) =~= pv.skip(i + 1)) by {
                    assert forall|k: int| 0 <= k < taken@.len() implies pkg_views(taken@)[k] == pv.skip(
                        i + 1,
                    )[k] by {
                        assert(taken@[k] == old_t[k + 1]);
                        assert(pkg_views(old_t)[k + 1] == pv.skip(i)[k + 1]);
                    }
                }
            }
            if !str_eq(p.name.as_str(), name.as_str()) {
                let ghost before = pkg_views(kept@);
                kept.push(p);
                assert(pkg_views(kept@) =~= before.push(kept@.last()@));
            }
            proof {
                i = i + 1;
            }
        }
        proof {
            assert(pv.take(pv.len() as int) =~= pv);
        }
        self.packages = kept;
    }

    /// Applies `changes` in order: `SetStatus` updates the first record of
    /// that name (or adds one), `Remove` drops every record of that name.
    pub fn apply_changes(&mut self, changes: &[StatusChange]) -> (r: Result<(), DbError>)
        ensures
            r is Ok,
            final(self)@ == apply_changes_spec(old(self)@, change_views(changes@)),
    {
        let ghost start = self@;
        let ghost cv = change_views(changes@);
        let mut i: usize = 0;
        proof {
            assert(cv.take(0) =~= Seq::<ChangeView>::empty());
        }
        while i < changes.len()
            invariant
                i <= changes@.len(),
                cv == change_views(changes@),
                start == old(self)@,
                self@ == apply_changes_spec(start, cv.take(i as int)),
            decreases changes.len() - i,
        {
            proof {
                assert(cv.take(i + 1).drop_last() =~= cv.take(i as int));
                assert(cv.take(i + 1).last() == changes@[i as int]@);
            }
            match &changes[i] {
                StatusChange::SetStatus { name, version, architecture, status } => {
                    self.set_status(name, version, architecture, status);
                },
                StatusChange::Remove { name } => {
                    self.remove_named(name);
                },
            }
            i = i + 1;
        }
        proof {
            assert(cv.take(cv.len() as int) =~= cv);
        }
        Ok(())
    }
}

pub open spec fn installed_views(v: Seq<&InstalledPackage>) -> Seq<PkgView> {
    Seq::new(v.len(), |i: int| v[i]@)
}

/// The records in the `installed` state, in order.
pub open spec fn installed_only(ps: Seq<PkgView>) -> Seq<PkgView>
    decreases ps.len(),
{
    if ps.len() == 0 {
        Seq::empty()
    } else {
        let r = installed_only(ps.drop_last());
        if ps.last().status.status is Installed {
            r.push(ps.last())
        } else {
            r
        }
    }
}

// ── Laws of changes ───────────────────────────────────────────────────────────

proof fn lemma_find_push(s: Seq<PkgView>, x: PkgView, o: Seq<char>)
    ensures
        find_spec(s.push(x), o) == match find_spec(s, o) {
            Some(p) => Some(p),
            None => if x.name == o {
                Some(x)
            } else {
                None
            },
        },
{
    lemma_pkg_index(s, o);
    let t = s.push(x);
    let j = pkg_index(s, o) as int;
    assert forall|m: int| 0 <= m < j implies t[m].name != o by {
        assert(t[m] == s[m]);
    }
    if j < s.len() {
        assert(t[j] == s[j]);
        lemma_pkg_index_at(t, o, j);
    } else if x.name == o {
        lemma_pkg_index_at(t, o, s.len() as int);
    } else {
        lemma_pkg_index_at(t, o, t.len() as int);
    }
}

proof fn lemma_without_names(ps: Seq<PkgView>, name: Seq<char>)
    ensures
        forall|m: int| 0 <= m < without(ps, name).len() ==> (#[trigger] without(ps, name)[m]).name != name,
    decreases ps.len(),
{
    if ps.len() > 0 {
        lemma_without_names(ps.drop_last(), name);
    }
}

/// Setting a package's status: looking the package up afterwards finds the
/// version, architecture and status just set.
pub proof fn lemma_set_status_then_find(
    ps: Seq<PkgView>,
    name: Seq<char>,
    version: Seq<char>,
    architecture: Seq<char>,
    status: StatusView,
)
    ensures
        find_spec(
            apply_change(
                ps,
                ChangeView::SetStatus { name, version, architecture, status },
            ),
            name,
        ) matches Some(p) && p.name == name && p.version == version && p.architecture
            == architecture && p.status == status,
{
    lemma_pkg_index(ps, name);
    let i = pkg_index(ps, name) as int;
    let r = apply_change(ps, ChangeView::SetStatus { name, version, architecture, status });
    if i < ps.len() {
        assert forall|m: int| 0 <= m < i implies r[m].name != name by {
            assert(r[m] == ps[m]);
        }
        lemma_pkg_index_at(r, name, i);
    } else {
        assert forall|m: int| 0 <= m < ps.len() implies r[m].name != name by {
            assert(r[m] == ps[m]);
        }
        lemma_pkg_index_at(r, name, ps.len() as int);
    }
}

/// Removing a package: looking it up afterwards finds nothing.
pub proof fn lemma_remove_then_find(ps: Seq<PkgView>, name: Seq<char>)
    ensures
        find_spec(apply_change(ps, ChangeView::Remove { name }), name) is None,
{
    let r = without(ps, name);
    lemma_without_names(ps, name);
    lemma_pkg_index_at(r, name, r.len() as int);
}

pub open spec fn change_name(c: ChangeView) -> Seq<char> {
    match c {
        ChangeView::SetStatus { name, .. } => name,
        ChangeView::Remove { name } => name,
    }
}

proof fn lemma_without_find(ps: Seq<PkgView>, name: Seq<char>, other: Seq<char>)
    requires
        other != name,
    ensures
        find_spec(without(ps, name), other) == find_spec(ps, other),
    decreases ps.len(),
{
    if ps.len() > 0 {
        let p0 = ps.drop_last();
        lemma_without_find(p0, name, other);
        assert(ps =~= p0.push(ps.last()));
        lemma_find_push(p0, ps.last(), other);
        if ps.last().name != name {
            lemma_find_push(without(p0, name), ps.last(), other);
        }
    }
}

/// A change leaves every other package as it was.
pub proof fn lemma_change_keeps_others(ps: Seq<PkgView>, c: ChangeView, other: Seq<char>)
    requires
        other != change_name(c),
    ensures
        find_spec(apply_change(ps, c), other) == find_spec(ps, other),
{
    match c {
        ChangeView::SetStatus { name, version, architecture, status } => {
            lemma_pkg_index(ps, name);
            lemma_pkg_index(ps, other);
            let i = pkg_index(ps, name) as int;
            let j = pkg_index(ps, other) as int;
            let r = apply_change(ps, c);
            if i < ps.len() {
                assert forall|m: int| 0 <= m < j implies r[m].name != other by {
                    assert(r[m].name == ps[m].name);
                }
                if j < ps.len() {
                    assert(j != i);
                    assert(r[j] == ps[j]);
                }
                lemma_pkg_index_at(r, other, j);
            } else {
                lemma_find_push(
                    ps,
                    PkgView {
                        name,
                        version,
                        architecture,
                        status,
                        depends: None,
                        pre_depends: None,
                        description: None,
                    },
                    other,
                );
            }
        },
        ChangeView::Remove { name } => {
            lemma_without_find(ps, name, other);
        },
    }
}

} // verus!
