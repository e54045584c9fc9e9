//! The selector's header: the banner, unless it is hidden, and the
//! column row above the candidate list.

use vstd::prelude::*;
use vstd::string::*;

verus! {

/// The banner shown above the list.
pub open spec fn banner_text() -> Seq<char> {
    " /$$$$$$$$ /$$      /$$ /$$   /$$ /$$   /$$        /$$$$$$  /$$$$$$$$  /$$$$$$   /$$$$$$  /$$$$$$  /$$$$$$  /$$   /$$ /$$$$$$ /$$$$$$$$ /$$$$$$$$ /$$$$$$$ \n|__  $$__/| $$$    /$$$| $$  | $$| $$  / $$       /$$__  $$| $$_____/ /$$__  $$ /$$__  $$|_  $$_/ /$$__  $$| $$$ | $$|_  $$_/|_____ $$ | $$_____/| $$__  $$\n   | $$   | $$$$  /$$$$| $$  | $$|  $$/ $$/      | $$  \\__/| $$      | $$  \\__/| $$  \\__/  | $$  | $$  \\ $$| $$$$| $$  | $$       /$$/ | $$      | $$  \\ $$\n   | $$   | $$ $$/$$ $$| $$  | $$ \\  $$$$/       |  $$$$$$ | $$$$$   |  $$$$$$ |  $$$$$$   | $$  | $$  | $$| $$ $$ $$  | $$      /$$/  | $$$$$   | $$$$$$$/\n   | $$   | $$  $$$| $$| $$  | $$  >$$  $$        \\____  $$| $$__/    \\____  $$ \\____  $$  | $$  | $$  | $$| $$  $$$$  | $$     /$$/   | $$__/   | $$__  $$\n   | $$   | $$\\  $ | $$| $$  | $$ /$$/\\  $$       /$$  \\ $$| $$       /$$  \\ $$ /$$  \\ $$  | $$  | $$  | $$| $$\\  $$$  | $$    /$$/    | $$      | $$  \\ $$\n   | $$   | $$ \\/  | $$|  $$$$$$/| $$  \\ $$      |  $$$$$$/| $$$$$$$$|  $$$$$$/|  $$$$$$/ /$$$$$$|  $$$$$$/| $$ \\  $$ /$$$$$$ /$$$$$$$$| $$$$$$$$| $$  | $$\n   |__/   |__/     |__/ \\______/ |__/  |__/       \\______/ |________/ \\______/  \\______/ |______/ \\______/ |__/  \\__/|______/|________/|________/|__/  |__/\n"@
}

/// The column row above the candidate list.
pub open spec fn header_row() -> Seq<char> {
    " *                    Name                                        Working Directory                       Window Count"@
}

/// The selector's header: the column row, with the banner above it
/// unless it is hidden.
pub fn gen_header(hide_banner: &bool) -> (r: String)
    ensures
        r@ == if *hide_banner {
            header_row()
        } else {
            banner_text() + header_row()
        },
{
    let mut header = if *hide_banner {
        String::new()
    } else {
        String::from_str(
            " /$$$$$$$$ /$$      /$$ /$$   /$$ /$$   /$$        /$$$$$$  /$$$$$$$$  /$$$$$$   /$$$$$$  /$$$$$$  /$$$$$$  /$$   /$$ /$$$$$$ /$$$$$$$$ /$$$$$$$$ /$$$$$$$ \n|__  $$__/| $$$    /$$$| $$  | $$| $$  / $$       /$$__  $$| $$_____/ /$$__  $$ /$$__  $$|_  $$_/ /$$__  $$| $$$ | $$|_  $$_/|_____ $$ | $$_____/| $$__  $$\n   | $$   | $$$$  /$$$$| $$  | $$|  $$/ $$/      | $$  \\__/| $$      | $$  \\__/| $$  \\__/  | $$  | $$  \\ $$| $$$$| $$  | $$       /$$/ | $$      | $$  \\ $$\n   | $$   | $$ $$/$$ $$| $$  | $$ \\  $$$$/       |  $$$$$$ | $$$$$   |  $$$$$$ |  $$$$$$   | $$  | $$  | $$| $$ $$ $$  | $$      /$$/  | $$$$$   | $$$$$$$/\n   | $$   | $$  $$$| $$| $$  | $$  >$$  $$        \\____  $$| $$__/    \\____  $$ \\____  $$  | $$  | $$  | $$| $$  $$$$  | $$     /$$/   | $$__/   | $$__  $$\n   | $$   | $$\\  $ | $$| $$  | $$ /$$/\\  $$       /$$  \\ $$| $$       /$$  \\ $$ /$$  \\ $$  | $$  | $$  | $$| $$\\  $$$  | $$    /$$/    | $$      | $$  \\ $$\n   | $$   | $$ \\/  | $$|  $$$$$$/| $$  \\ $$      |  $$$$$$/| $$$$$$$$|  $$$$$$/|  $$$$$$/ /$$$$$$|  $$$$$$/| $$ \\  $$ /$$$$$$ /$$$$$$$$| $$$$$$$$| $$  | $$\n   |__/   |__/     |__/ \\______/ |__/  |__/       \\______/ |________/ \\______/  \\______/ |______/ \\______/ |__/  \\__/|______/|________/|________/|__/  |__/\n",
        )
    };
    header.append(
        " *                    Name                                        Working Directory                       Window Count",
    );
    proof {
        if *hide_banner {
            assert(header@ =~= header_row());
        }
    }
    header
}

} // verus!
