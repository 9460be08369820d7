//! The wire-format fixture of the rock-paper-scissors example: the state
//! string a seat receives parses back into a `PlayerState`.

use std::str::FromStr;

#[derive(PartialEq, Eq, Clone, Copy, Debug)]
pub enum RpsAction {
    Rock,
    Paper,
    Scissors,
}

impl FromStr for RpsAction {
    type Err = ();

    fn from_str(s: &str) -> Result<Self, Self::Err> {
        match s {
            "Rock" => Ok(Self::Rock),
            "Paper" => Ok(Self::Paper),
            "Scissors" => Ok(Self::Scissors),
            _ => Err(()),
        }
    }
}

#[derive(Clone, Debug)]
pub struct RpsState {
    pub previous_actions: Vec<Option<RpsAction>>,
}

impl FromStr for RpsState {
    type Err = ();

    fn from_str(s: &str) -> Result<Self, Self::Err> {
        let mut v = Vec::new();
        for slice in s.split(",") {
            if slice.is_empty() {
                continue;
            } else if slice == "None" {
                v.push(None);
            } else {
                let value = Some(slice.parse()?);
                v.push(value);
            }
        }
        Ok(RpsState {
            previous_actions: v,
        })
    }
}

pub struct PlayerState {
    pub player_number: usize,
    pub state: RpsState,
}

impl FromStr for PlayerState {
    type Err = String;

    fn from_str(s: &str) -> Result<Self, Self::Err> {
        let lines = s.lines().collect::<Vec<_>>();
        if lines.len() == 1 {
            Ok(Self {
                player_number: lines[0]
                    .parse()
                    .map_err(|_| format!("not a usize: '{}'", lines[0]))?,
                state: RpsState::from_str("").map_err(|_| format!("not a RpsState: '{}'", ""))?,
            })
        } else if lines.len() == 2 {
            let player_number = lines[0]
                .parse()
                .map_err(|_| format!("not a usize: '{}'", lines[0]))?;
            let state = lines[1]
                .parse()
                .map_err(|_| format!("not a RpsState: '{}'", lines[1]))?;
            Ok(Self {
                player_number,
                state,
            })
        } else {
            Err(format!(
                "not a PlayerState ({} lines): '{}'",
                lines.len(),
                s
            ))
        }
    }
}

#[test]
fn test_from_str() -> Result<(), String> {
    let _state = PlayerState::from_str("0\n")?;
    Ok(())
}

#[test]
fn launch_test_from_str() -> Result<(), String> {
    let _state = PlayerState::from_str("0\n")?;
    Ok(())
}
