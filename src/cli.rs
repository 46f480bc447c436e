//! The commands of the tool, and the task each one asks for.

use vstd::prelude::*;

verus! {

/// The parsed command line.
pub struct Cli {
    pub command: Option<Commands>,
}

/// The commands the tool accepts.
pub enum Commands {
    /// Downloads the demonstration subset of the corpus.
    Demo,
    /// Downloads all program pairs.
    Download,
    /// Deletes the downloaded program pairs and repository clones.
    Delete,
    /// Resolves the source files of a program in a checked-out repository.
    Metadata { program_name: String, repository: String },
}

/// The work a command line asks for.
pub enum Task {
    /// Download program pairs; only the demonstration subset when `demo`.
    DownloadPairs { demo: bool },
    /// Delete the download directories.
    Delete,
    /// Resolve the sources of `program_name` in the repository at `repository`.
    ResolveSources { program_name: String, repository: String },
}

/// The task that `cli` asks for: with no command, a full download.
pub fn run(cli: Cli) -> (r: Task)
    ensures
        cli.command is None ==> r == (Task::DownloadPairs { demo: false }),
        cli.command matches Some(Commands::Download) ==> r == (Task::DownloadPairs { demo: false }),
        cli.command matches Some(Commands::Demo) ==> r == (Task::DownloadPairs { demo: true }),
        cli.command matches Some(Commands::Delete) ==> r is Delete,
        cli.command matches Some(Commands::Metadata { program_name, repository }) ==> r == (
        Task::ResolveSources { program_name, repository }),
{
    match cli.command {
        None => Task::DownloadPairs { demo: false },
        Some(Commands::Demo) => Task::DownloadPairs { demo: true },
        Some(Commands::Download) => Task::DownloadPairs { demo: false },
        Some(Commands::Delete) => Task::Delete,
        Some(Commands::Metadata { program_name, repository }) => Task::ResolveSources {
            program_name,
            repository,
        },
    }
}

} // verus!
