//! The weather reading record and its mathematical view.
use vstd::prelude::*;

verus! {

/// One weather reading. Every field may be absent, and absence is distinct
/// from a zero value. Floating-point readings are held as their IEEE-754 bit
/// patterns: `temperature` and `wind_speed` as binary64, `relative_humidity`
/// as binary32.
#[derive(Clone, Debug, PartialEq)]
pub struct WeatherData {
    pub station_name: Option<String>,
    pub temperature: Option<u64>,
    pub relative_humidity: Option<u32>,
    pub wind_speed: Option<u64>,
    pub wind_direction: Option<String>,
}

/// What a reading holds, as mathematical values.
pub struct WeatherView {
    pub station_name: Option<Seq<char>>,
    pub temperature: Option<u64>,
    pub relative_humidity: Option<u32>,
    pub wind_speed: Option<u64>,
    pub wind_direction: Option<Seq<char>>,
}

/// The characters of an optional text field.
pub open spec fn text_view(o: Option<String>) -> Option<Seq<char>> {
    match o {
        Some(s) => Some(s@),
        None => None,
    }
}

/// The reading with no field present.
pub open spec fn empty_view() -> WeatherView {
    WeatherView {
        station_name: None,
        temperature: None,
        relative_humidity: None,
        wind_speed: None,
        wind_direction: None,
    }
}

/// The station name that generated readings carry.
pub open spec fn generated_station() -> Seq<char> {
    seq!['A', '1', '0', 'H', '7', 'B']
}

/// The wind direction that generated readings carry.
pub open spec fn generated_direction() -> Seq<char> {
    seq!['N']
}

impl View for WeatherData {
    type V = WeatherView;

    open spec fn view(&self) -> WeatherView {
        WeatherView {
            station_name: text_view(self.station_name),
            temperature: self.temperature,
            relative_humidity: self.relative_humidity,
            wind_speed: self.wind_speed,
            wind_direction: text_view(self.wind_direction),
        }
    }
}

impl WeatherData {
    /// A reading with every field absent.
    pub fn empty() -> (r: WeatherData)
        ensures
            r@ == empty_view(),
    {
        WeatherData {
            station_name: None,
            temperature: None,
            relative_humidity: None,
            wind_speed: None,
            wind_direction: None,
        }
    }

    /// A generated reading: the given measurements with the fixed station
    /// name and wind direction, all five fields present.
    pub fn generated(temperature: u64, relative_humidity: u32, wind_speed: u64) -> (r: WeatherData)
        ensures
            r@ == (WeatherView {
                station_name: Some(generated_station()),
                temperature: Some(temperature),
                relative_humidity: Some(relative_humidity),
                wind_speed: Some(wind_speed),
                wind_direction: Some(generated_direction()),
            }),
    {
        proof {
            reveal_strlit("A10H7B");
            reveal_strlit("N");
        }
        let station = "A10H7B".to_owned();
        let direction = "N".to_owned();
        proof {
            assert(station@ =~= generated_station());
            assert(direction@ =~= generated_direction());
        }
        WeatherData {
            station_name: Some(station),
            temperature: Some(temperature),
            relative_humidity: Some(relative_humidity),
            wind_speed: Some(wind_speed),
            wind_direction: Some(direction),
        }
    }

    /// The station name, or the empty text when it is absent.
    pub fn station_name(&self) -> (r: &str)
        ensures
            r@ == match self.station_name {
                Some(s) => s@,
                None => Seq::<char>::empty(),
            },
    {
        proof {
            reveal_strlit("");
        }
        match &self.station_name {
            Some(s) => s.as_str(),
            None => "",
        }
    }

    /// The wind direction, or the empty text when it is absent.
    pub fn wind_direction(&self) -> (r: &str)
        ensures
            r@ == match self.wind_direction {
                Some(s) => s@,
                None => Seq::<char>::empty(),
            },
    {
        proof {
            reveal_strlit("");
        }
        match &self.wind_direction {
            Some(s) => s.as_str(),
            None => "",
        }
    }

    /// The temperature's bits, or those of 0.0 when it is absent.
    pub fn temperature(&self) -> (r: u64)
        ensures
            r == match self.temperature {
                Some(t) => t,
                None => 0,
            },
    {
        match self.temperature {
            Some(t) => t,
            None => 0,
        }
    }

    /// The relative humidity's bits, or those of 0.0 when it is absent.
    pub fn relative_humidity(&self) -> (r: u32)
        ensures
            r == match self.relative_humidity {
                Some(h) => h,
                None => 0,
            },
    {
        match self.relative_humidity {
            Some(h) => h,
            None => 0,
        }
    }

    /// The wind speed's bits, or those of 0.0 when it is absent.
    pub fn wind_speed(&self) -> (r: u64)
        ensures
            r == match self.wind_speed {
                Some(w) => w,
                None => 0,
            },
    {
        match self.wind_speed {
            Some(w) => w,
            None => 0,
        }
    }
}

} // verus!
