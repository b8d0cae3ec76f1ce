//! The settings of a replica.

use crate::error::{Setting, SyncError};
use std::path::PathBuf;
use vstd::prelude::*;
use xdg::{BaseDirectories, BaseDirectoriesError};

verus! {

/// The base directories of `xdg`. Nothing of their contents is visible here.
#[verifier::external_type_specification]
#[verifier::external_body]
pub struct ExBaseDirectories(BaseDirectories);

/// The error of `xdg`. Nothing of its contents is visible here.
#[verifier::external_type_specification]
#[verifier::external_body]
pub struct ExBaseDirectoriesError(BaseDirectoriesError);

/// A path of the standard library. Nothing of its contents is visible here.
#[verifier::external_type_specification]
#[verifier::external_body]
pub struct ExPathBuf(PathBuf);

/// Calls `xdg::BaseDirectories::with_profile` with the application's name
/// as the prefix and the channel as the profile. The call reads the process
/// environment, so nothing is claimed of what it returns.
#[verifier::external_body]
fn base_directories(appname: &String, channel: &String) -> Result<
    BaseDirectories,
    BaseDirectoriesError,
> {
    BaseDirectories::with_profile(appname, channel)
}

/// Calls `xdg::BaseDirectories::get_data_file`, which joins the user's data
/// home, the prefix with the profile, and `name`. Nothing is claimed of the
/// path, which cannot be looked into here.
#[verifier::external_body]
fn data_file(directories: &BaseDirectories, name: &str) -> PathBuf {
    directories.get_data_file(name)
}

/// The settings that a replica runs with.
#[derive(Debug)]
pub struct EnvVars {
    /// The application's name.
    pub appname: String,
    /// The release channel.
    pub channel: String,
    /// The base directories of this application and channel.
    pub xdg_dirs: BaseDirectories,
    /// Where the durable state is kept.
    pub crdt: PathBuf,
    /// The working directory that holds the files.
    pub data: PathBuf,
    /// The remote address.
    pub url: String,
}

impl EnvVars {
    /// Settles the settings from what was found in the environment: the
    /// application's name, the channel, the remote address and the working
    /// directory, each absent where it could not be had.
    ///
    /// The first of the name, the channel and the address that is absent
    /// fails the call, in this order. With all three there, the base
    /// directories are looked up, and the call fails where they cannot be
    /// had, and after that where the working directory is absent.
    pub fn new(
        appname: Option<String>,
        channel: Option<String>,
        url: Option<String>,
        data: Option<PathBuf>,
    ) -> (settled: Result<EnvVars, SyncError>)
        ensures
            appname is None ==> settled == Err::<EnvVars, SyncError>(
                SyncError::Configuration(Setting::AppName),
            ),
            appname is Some && channel is None ==> settled == Err::<EnvVars, SyncError>(
                SyncError::Configuration(Setting::Channel),
            ),
            appname is Some && channel is Some && url is None ==> settled == Err::<
                EnvVars,
                SyncError,
            >(SyncError::Configuration(Setting::Url)),
            settled matches Ok(vars) ==> {
                &&& appname == Some(vars.appname)
                &&& channel == Some(vars.channel)
                &&& url == Some(vars.url)
                &&& data == Some(vars.data)
            },
            settled matches Err(error) ==> {
                ||| appname is None && error == SyncError::Configuration(Setting::AppName)
                ||| channel is None && error == SyncError::Configuration(Setting::Channel)
                ||| url is None && error == SyncError::Configuration(Setting::Url)
                ||| error == SyncError::Configuration(Setting::BaseDirectories)
                ||| data is None && error == SyncError::Configuration(Setting::WorkingDirectory)
            },
    {
        let appname = match appname {
            Some(appname) => appname,
            None => {
                return Err(SyncError::Configuration(Setting::AppName));
            },
        };
        let channel = match channel {
            Some(channel) => channel,
            None => {
                return Err(SyncError::Configuration(Setting::Channel));
            },
        };
        let url = match url {
            Some(url) => url,
            None => {
                return Err(SyncError::Configuration(Setting::Url));
            },
        };
        let directories = base_directories(&appname, &channel);
        EnvVars::with_directories(appname, channel, url, directories, data)
    }

    /// Settles the settings once the base directories have been looked up:
    /// fails where the lookup failed, and after that where the working
    /// directory is absent. Otherwise the settings hold what was handed in,
    /// and the durable state is kept in the data file `local.cbor` of the
    /// base directories.
    pub fn with_directories(
        appname: String,
        channel: String,
        url: String,
        directories: Result<BaseDirectories, BaseDirectoriesError>,
        data: Option<PathBuf>,
    ) -> (settled: Result<EnvVars, SyncError>)
        ensures
            directories is Err ==> settled == Err::<EnvVars, SyncError>(
                SyncError::Configuration(Setting::BaseDirectories),
            ),
            directories is Ok && data is None ==> settled == Err::<EnvVars, SyncError>(
                SyncError::Configuration(Setting::WorkingDirectory),
            ),
            directories is Ok && data is Some ==> {
                &&& settled matches Ok(vars)
                &&& vars.appname == appname
                &&& vars.channel == channel
                &&& vars.url == url
                &&& Ok::<BaseDirectories, BaseDirectoriesError>(vars.xdg_dirs) == directories
                &&& Some(vars.data) == data
            },
    {
        let xdg_dirs = match directories {
            Ok(found) => found,
            Err(_) => {
                return Err(SyncError::Configuration(Setting::BaseDirectories));
            },
        };
        let crdt = data_file(&xdg_dirs, "local.cbor");
        let data = match data {
            Some(data) => data,
            None => {
                return Err(SyncError::Configuration(Setting::WorkingDirectory));
            },
        };
        Ok(EnvVars { appname, channel, xdg_dirs, crdt, data, url })
    }
}

} // verus!
