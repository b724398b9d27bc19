//! Commands of the client's user interface, each with a JSON form.
use vstd::prelude::*;
use vstd::string::StringExecFns;

use crate::envelope::json_quoted;
use crate::envelope::login_envelope;
use crate::envelope::quote_json;

verus! {

/// The kinds of user interface commands.
#[derive(Debug, Clone, Copy, PartialEq, Eq, Structural)]
pub enum CommandType {
    GatherLoginData,
    Login,
}

/// A user interface command.
pub trait Command {
    fn get_type(&self) -> CommandType;

    fn to_json(&self) -> String;
}

/// Asks the user for login data.
pub struct GatherLoginDataCommand {}

/// Logs in under a user name.
pub struct LoginCommand {
    username: String,
}

impl LoginCommand {
    pub closed spec fn username(&self) -> Seq<char> {
        self.username@
    }

    pub fn new(username: String) -> (r: LoginCommand)
        ensures
            r.username() == username@,
    {
        LoginCommand { username }
    }

    /// The JSON form: the login envelope.
    pub fn json(&self) -> (r: String)
        ensures
            r@ == login_envelope(json_quoted(self.username())),
    {
        let mut s = String::from_str("{\"username\":");
        let user = quote_json(self.username.as_str());
        s.append(user.as_str());
        s.append("}");
        s
    }
}

impl Command for GatherLoginDataCommand {
    fn get_type(&self) -> CommandType {
        CommandType::GatherLoginData
    }

    fn to_json(&self) -> String {
        String::from_str("{}")
    }
}

impl Command for LoginCommand {
    fn get_type(&self) -> CommandType {
        CommandType::Login
    }

    fn to_json(&self) -> String {
        self.json()
    }
}

} // verus!
