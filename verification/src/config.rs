//! The address of the document store, put together from its settings.

use crate::text::Text;
use vstd::prelude::*;
use vstd::string::StringExecFns;

verus! {

/// The settings of the document store, each as it was found in the
/// environment, or `None` where it was not set.
#[derive(Debug, Clone)]
pub struct MongoSettings {
    /// The mode of the deployment, in lower case; empty where it was not set.
    pub mode: String,
    pub host: Option<String>,
    pub container_name: Option<String>,
    pub port: Option<String>,
    pub database: Option<String>,
    pub username: Option<String>,
    pub password: Option<String>,
}

/// What `value` holds, or `default` where it holds nothing.
pub open spec fn text_or(value: Option<String>, default: Text) -> Text {
    match value {
        Some(text) => text@,
        None => default,
    }
}

/// The host where none is set: that of the deployment's mode.
pub open spec fn default_host(mode: Text) -> Text {
    if mode == "docker"@ {
        "mongo"@
    } else {
        "localhost"@
    }
}

/// The host: the one that is set, else the container's name, else the
/// host of the mode.
pub open spec fn host_of(settings: MongoSettings) -> Text {
    text_or(settings.host, text_or(settings.container_name, default_host(settings.mode@)))
}

/// The address of the document store. It names the user and the password
/// where both are set and not empty.
pub open spec fn mongo_uri(settings: MongoSettings) -> Text {
    let host = host_of(settings);
    let port = text_or(settings.port, "27017"@);
    let database = text_or(settings.database, "burrito"@);
    let username = text_or(settings.username, ""@);
    let password = text_or(settings.password, ""@);
    if username.len() > 0 && password.len() > 0 {
        "mongodb://"@ + username + ":"@ + password + "@"@ + host + ":"@ + port + "/"@ + database
            + "?authSource=admin"@
    } else {
        "mongodb://"@ + host + ":"@ + port + "/"@ + database
    }
}

/// What `value` holds, or `default` where it holds nothing.
pub fn value_or(value: &Option<String>, default: &str) -> (text: String)
    ensures
        text@ == text_or(*value, default@),
{
    match value {
        Some(text) => text.clone(),
        None => String::from_str(default),
    }
}

/// The address of the document store.
pub fn build_mongo_uri(settings: &MongoSettings) -> (uri: String)
    ensures
        uri@ == mongo_uri(*settings),
{
    let of_mode = if settings.mode == String::from_str("docker") {
        "mongo"
    } else {
        "localhost"
    };
    let fallback = value_or(&settings.container_name, of_mode);
    let host = value_or(&settings.host, fallback.as_str());
    let port = value_or(&settings.port, "27017");
    let database = value_or(&settings.database, "burrito");
    let username = value_or(&settings.username, "");
    let password = value_or(&settings.password, "");
    let mut uri = String::from_str("mongodb://");
    if !username.as_str().is_empty() && !password.as_str().is_empty() {
        uri.append(username.as_str());
        uri.append(":");
        uri.append(password.as_str());
        uri.append("@");
        uri.append(host.as_str());
        uri.append(":");
        uri.append(port.as_str());
        uri.append("/");
        uri.append(database.as_str());
        uri.append("?authSource=admin");
    } else {
        uri.append(host.as_str());
        uri.append(":");
        uri.append(port.as_str());
        uri.append("/");
        uri.append(database.as_str());
    }
    uri
}

} // verus!
