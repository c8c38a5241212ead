//! The one setting that the tools share, and the state of the page that
//! edits it.

use crate::text::str_equal;
use vstd::prelude::*;

verus! {

/// The settings that all tools share.
#[derive(Debug, Clone, PartialEq, Eq)]
pub struct AppSettings {
    /// The directory below which the definition files are looked for.
    pub base_path: String,
}

impl Default for AppSettings {
    /// Settings with no directory chosen.
    fn default() -> (settings: AppSettings)
        ensures
            settings.base_path@ == Seq::<char>::empty(),
    {
        AppSettings { base_path: String::new() }
    }
}

impl AppSettings {
    /// A copy of the settings.
    pub fn duplicate(&self) -> (copy: AppSettings)
        ensures
            copy.base_path@ == self.base_path@,
    {
        AppSettings { base_path: self.base_path.clone() }
    }
}

/// What the settings page has last done.
#[derive(Debug, Clone, Copy, PartialEq, Eq)]
pub enum SettingsStatus {
    /// Nothing yet.
    Idle,
    /// The settings were handed over to be stored.
    Saved,
    /// The directory was reset to none.
    Reset,
}

/// The settings page.
#[derive(Debug, Clone, PartialEq, Eq)]
pub struct SettingsTab {
    /// The settings as the page shows them.
    pub settings: AppSettings,
    /// What the page has last done.
    pub status: SettingsStatus,
}

impl SettingsTab {
    /// A page that shows the given settings and has done nothing yet.
    pub fn new(settings: AppSettings) -> (tab: SettingsTab)
        ensures
            tab.settings == settings,
            tab.status == SettingsStatus::Idle,
    {
        SettingsTab { settings, status: SettingsStatus::Idle }
    }

    /// The directory is edited. Where it differs from the one in the
    /// settings it takes its place, and the settings are to be stored: the
    /// result says so.
    pub fn set_base_path(&mut self, path: String) -> (changed: bool)
        ensures
            changed == (path@ != old(self).settings.base_path@),
            final(self).settings.base_path@ == path@,
            final(self).status == if changed {
                SettingsStatus::Saved
            } else {
                old(self).status
            },
    {
        if str_equal(self.settings.base_path.as_str(), path.as_str()) {
            false
        } else {
            self.settings.base_path = path;
            self.status = SettingsStatus::Saved;
            true
        }
    }

    /// The settings are to be stored as they stand.
    pub fn save(&mut self)
        ensures
            final(self).settings == old(self).settings,
            final(self).status == SettingsStatus::Saved,
    {
        self.status = SettingsStatus::Saved;
    }

    /// The directory is reset to none, and the settings are to be stored.
    pub fn reset(&mut self)
        ensures
            final(self).settings.base_path@ == Seq::<char>::empty(),
            final(self).status == SettingsStatus::Reset,
    {
        self.settings = AppSettings::default();
        self.status = SettingsStatus::Reset;
    }
}

} // verus!
