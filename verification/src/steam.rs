//! The Steam library description (`libraryfolders.vdf`) and app manifests.
//!
//! Steam lists its library folders, each with the ids of the apps installed
//! in it. The game is found in the first listed folder that holds its id;
//! that folder's `steamapps/appmanifest_<id>.acf` names the game's install
//! directory under `steamapps/common`.
use vstd::prelude::*;
use vstd::string::*;

verus! {

/// One library folder: where it is and which apps it holds (app id and
/// size, as Steam lists them).
#[derive(Debug)]
pub struct Entry {
    pub path: String,
    pub apps: Vec<(String, String)>,
}

/// The library folders, under the keys Steam gives them, in listing order.
#[derive(Debug)]
pub struct Folders(pub Vec<(u8, Entry)>);

/// The parsed `libraryfolders.vdf`.
#[derive(Debug)]
pub struct Library {
    pub folders: Folders,
}

/// The `AppState` block of an app manifest.
#[derive(Debug)]
pub struct AppState {
    pub install_dir: String,
}

/// A parsed app manifest.
#[derive(Debug)]
pub struct AppManifest {
    pub app_state: AppState,
}

/// True when `entry` lists the app `app_id`.
pub open spec fn holds_app(entry: Entry, app_id: Seq<char>) -> bool {
    exists|k: int| 0 <= k < entry.apps@.len() && #[trigger] entry.apps@[k].0@ == app_id
}

impl Entry {
    /// Tells whether the folder holds the app `app_id`.
    pub fn has_app(&self, app_id: &str) -> (held: bool)
        ensures
            held == holds_app(*self, app_id@),
    {
        let key = app_id.to_owned();
        let mut k: usize = 0;
        while k < self.apps.len()
            invariant
                key@ == app_id@,
                k <= self.apps@.len(),
                forall|j: int| 0 <= j < k ==> #[trigger] self.apps@[j].0@ != app_id@,
            decreases self.apps@.len() - k,
        {
            if self.apps[k].0 == key {
                return true;
            }
            k = k + 1;
        }
        false
    }
}

impl Library {
    /// The first listed folder that holds the app `app_id`, if any.
    pub fn app_folder(&self, app_id: &str) -> (folder: Option<&Entry>)
        ensures
            match folder {
                Some(e) => exists|i: int|
                    0 <= i < self.folders.0@.len() && self.folders.0@[i].1 == *e && holds_app(
                        *e,
                        app_id@,
                    ) && forall|j: int|
                        0 <= j < i ==> !holds_app(#[trigger] self.folders.0@[j].1, app_id@),
                None => forall|j: int|
                    0 <= j < self.folders.0@.len() ==> !holds_app(
                        #[trigger] self.folders.0@[j].1,
                        app_id@,
                    ),
            },
    {
        let folders = &self.folders.0;
        let mut i: usize = 0;
        while i < folders.len()
            invariant
                folders == &self.folders.0,
                i <= folders@.len(),
                forall|j: int| 0 <= j < i ==> !holds_app(#[trigger] folders@[j].1, app_id@),
            decreases folders@.len() - i,
        {
            if folders[i].1.has_app(app_id) {
                return Some(&folders[i].1);
            }
            i = i + 1;
        }
        None
    }
}

impl AppManifest {
    /// The name of the manifest file of the app `app_id`:
    /// `appmanifest_<id>.acf`.
    pub fn file_name(app_id: &str) -> (name: String)
        ensures
            name@ == "appmanifest_"@ + app_id@ + ".acf"@,
    {
        let mut name = "appmanifest_".to_owned();
        name.append(app_id);
        name.append(".acf");
        name
    }
}

} // verus!
