[package]
name = "gridstats"
version = "0.1.0"
edition = "2021"
publish = false

[dependencies]
geo = "*"
geo-types = "*"
crossbeam-channel = "*"
structopt = "0.3"
netcdf = "*"
shapefile = "*"
dbase = "*"
ndarray = "*"
